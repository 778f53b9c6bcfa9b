//! What stands where on the lines of a document: keys, names and values by their
//! place among the tokens, and the types that a schema declares for them.

use vstd::prelude::*;

use crate::analyzer::has_slot;
use crate::ast::{has_equals, header, values_after_key, words, words_after_equals};
use crate::kind::SyntaxKind;
use crate::model::{block_scope, field_named, module_scope, path_scope, scope_of, ScopeView};
use crate::parser::ChildView;
use crate::schema::{block_named, module_named, BlockType, Field, ModuleType, Schema, ValueType};
use crate::semantic::{field_type, fills_slot};
use crate::tree::{ElementView, LeafView, NodeView};

verus! {

// ---------------------------------------------------------------------------
// Places on a line
// ---------------------------------------------------------------------------
/// Child `i` of a node is a token on the node's first line.
pub open spec fn on_line(node: NodeView, i: int) -> bool {
    &&& 0 <= i < node.children.len()
    &&& forall|j: int|
        0 <= j <= i ==> (#[trigger] node.children[j]) is Token && node.children[j]->Token_0.kind
            != SyntaxKind::NEWLINE
}

/// The token that child `i` of a node is.
pub open spec fn leaf_at(node: NodeView, i: int) -> LeafView {
    node.children[i]->Token_0
}

/// Child `i` of a node is a word on its first line.
pub open spec fn word_at(node: NodeView, i: int) -> bool {
    on_line(node, i) && leaf_at(node, i).kind == SyntaxKind::WORD
}

/// Child `i` of a node is its key: the first word of its first line.
pub open spec fn key_at(node: NodeView, i: int) -> bool {
    word_at(node, i) && forall|j: int| 0 <= j < i ==> !#[trigger] word_at(node, j)
}

/// Child `i` of a node is its name: the second word of its first line.
pub open spec fn name_at(node: NodeView, i: int) -> bool {
    &&& word_at(node, i)
    &&& exists|k: int|
        #![trigger key_at(node, k)]
        k < i && key_at(node, k) && forall|j: int| k < j < i ==> !#[trigger] word_at(node, j)
}

/// Child `i` of a node is a value: a word or a string behind the key.
pub open spec fn value_at(node: NodeView, i: int) -> bool {
    &&& on_line(node, i)
    &&& leaf_at(node, i).kind == SyntaxKind::WORD || leaf_at(node, i).kind == SyntaxKind::STRING
    &&& exists|k: int| k < i && #[trigger] key_at(node, k)
}

/// Child `i` of a node is an `=` on its first line.
pub open spec fn equals_at(node: NodeView, i: int) -> bool {
    on_line(node, i) && leaf_at(node, i).kind == SyntaxKind::EQUALS
}

/// Child `i` of a node is the first word behind an `=`.
pub open spec fn argument_at(node: NodeView, i: int) -> bool {
    &&& word_at(node, i)
    &&& exists|e: int|
        #![trigger equals_at(node, e)]
        e < i && equals_at(node, e) && forall|j: int|
            e < j < i ==> !#[trigger] word_at(node, j)
    &&& forall|e: int, j: int| #![trigger equals_at(node, e), word_at(node, j)]
        e < j < i && equals_at(node, e) ==> !word_at(node, j)
}

/// The key of a node is written `text`.
pub open spec fn key_is(node: NodeView, text: Seq<char>) -> bool {
    exists|k: int| #[trigger] key_at(node, k) && leaf_at(node, k).text == text
}

/// The first word behind the `=` of a node is written `text`.
pub open spec fn argument_is(node: NodeView, text: Seq<char>) -> bool {
    exists|k: int| #[trigger] argument_at(node, k) && leaf_at(node, k).text == text
}

/// A node is a child of another.
pub open spec fn holds_node(parent: NodeView, child: NodeView) -> bool {
    exists|i: int|
        0 <= i < parent.children.len() && #[trigger] parent.children[i] == ElementView::Node(child)
}

// ---------------------------------------------------------------------------
// Declared types
// ---------------------------------------------------------------------------
/// Entry `b` is the block type that counts for its name: the last of that name.
pub open spec fn counts_block(blocks: Seq<BlockType>, b: int) -> bool {
    &&& 0 <= b < blocks.len()
    &&& forall|c: int| b < c < blocks.len() ==> (#[trigger] blocks[c]).name@ != blocks[b].name@
}

/// Entry `m` is the module type that counts for its name: the last of that name.
pub open spec fn counts_module(modules: Seq<ModuleType>, m: int) -> bool {
    &&& 0 <= m < modules.len()
    &&& forall|c: int| m < c < modules.len() ==> (#[trigger] modules[c]).name@ != modules[m].name@
}

/// Entry `f` is the field that counts for its name: the first of that name.
pub open spec fn counts_field(fields: Seq<Field>, f: int) -> bool {
    &&& 0 <= f < fields.len()
    &&& forall|c: int| 0 <= c < f ==> (#[trigger] fields[c]).name@ != fields[f].name@
}

/// The schema has block type `b` for a block.
pub open spec fn block_type_is(schema: Schema, block: NodeView, b: int) -> bool {
    counts_block(schema.blocks@, b) && key_is(block, schema.blocks@[b].name@)
}

/// The schema has module type `m` for a module.
pub open spec fn module_type_is(schema: Schema, module: NodeView, m: int) -> bool {
    counts_module(schema.modules@, m) && argument_is(module, schema.modules@[m].name@)
}

/// A list of fields declares a type for a field line.
pub open spec fn declared(fields: Seq<Field>, field: NodeView, ty: ValueType) -> bool {
    exists|f: int|
        counts_field(fields, f) && key_is(field, (#[trigger] fields[f]).name@)
            && fields[f].value_type == ty
}

/// The key of a module is one of the slots of its block.
pub open spec fn in_slot(schema: Schema, b: int, module: NodeView) -> bool {
    exists|s: int|
        0 <= s < schema.blocks@[b].module_slots@.len() && key_is(
            module,
            (#[trigger] schema.blocks@[b].module_slots@[s]).keyword@,
        )
}

/// A field line of a document has a declared type. It stands in the top-level block
/// `block`, element `c` of the document: directly, or in the module `inner` that
/// fills one of the block's slots.
pub open spec fn line_has_type(
    schema: Schema,
    children: Seq<ChildView>,
    c: int,
    block: NodeView,
    inner: Option<NodeView>,
    field: NodeView,
    ty: ValueType,
) -> bool {
    &&& 0 <= c < children.len()
    &&& children[c].element == ElementView::Node(block)
    &&& block.kind == SyntaxKind::BLOCK
    &&& field.kind == SyntaxKind::FIELD
    &&& match inner {
        None => holds_node(block, field) && exists|b: int| #[trigger]
            block_type_is(schema, block, b) && declared(schema.blocks@[b].fields@, field, ty),
        Some(module) => {
            &&& module.kind == SyntaxKind::MODULE
            &&& holds_node(block, module)
            &&& holds_node(module, field)
            &&& exists|b: int| #[trigger] block_type_is(schema, block, b) && in_slot(
                schema,
                b,
                module,
            )
            &&& exists|m: int| #[trigger]
                module_type_is(schema, module, m) && declared(
                    schema.modules@[m].fields@,
                    field,
                    ty,
                )
        },
    }
}

// ---------------------------------------------------------------------------
// Reading lines
// ---------------------------------------------------------------------------
/// The first line of a node is its leading tokens.
pub proof fn lemma_header(children: Seq<ElementView>)
    ensures
        header(children).len() <= children.len(),
        forall|j: int|
            0 <= j < header(children).len() ==> (#[trigger] children[j]) is Token
                && children[j]->Token_0.kind != SyntaxKind::NEWLINE && header(children)[j]
                == children[j]->Token_0,
        header(children).len() < children.len() ==> children[header(children).len() as int] is Node
            || children[header(children).len() as int]->Token_0.kind == SyntaxKind::NEWLINE,
    decreases children.len(),
{
    if children.len() > 0 {
        if let ElementView::Token(leaf) = children[0] {
            if leaf.kind != SyntaxKind::NEWLINE {
                let rest = children.drop_first();
                lemma_header(rest);
                assert forall|j: int| 0 <= j < header(children).len() implies (
                #[trigger] children[j]) is Token && children[j]->Token_0.kind
                    != SyntaxKind::NEWLINE && header(children)[j] == children[j]->Token_0 by {
                    if j > 0 {
                        assert(rest[j - 1] == children[j]);
                    }
                }
                if header(children).len() < children.len() {
                    assert(rest[header(rest).len() as int] == children[header(
                        children,
                    ).len() as int]);
                }
            }
        }
    }
}

/// The tokens of a node's first line are those of its header, at their places.
pub proof fn lemma_on_line(node: NodeView, i: int)
    ensures
        on_line(node, i) <==> 0 <= i < node.header().len(),
        on_line(node, i) ==> node.header()[i] == leaf_at(node, i),
{
    lemma_header(node.children);
    let n = node.header().len() as int;
    if 0 <= i < n {
        assert forall|j: int| 0 <= j <= i implies (#[trigger] node.children[j]) is Token
            && node.children[j]->Token_0.kind != SyntaxKind::NEWLINE by {}
    }
    if on_line(node, i) && i >= n {
        assert(node.children[n] is Token);
    }
}

proof fn lemma_words(tokens: Seq<LeafView>, k: int)
    requires
        0 <= k < tokens.len(),
        tokens[k].kind == SyntaxKind::WORD,
        forall|j: int| 0 <= j < k ==> (#[trigger] tokens[j]).kind != SyntaxKind::WORD,
    ensures
        words(tokens).len() > 0,
        words(tokens)[0] == tokens[k],
    decreases tokens.len(),
{
    let rest = tokens.drop_last();
    if k < tokens.len() - 1 {
        assert(rest[k] == tokens[k]);
        assert forall|j: int| 0 <= j < k implies (#[trigger] rest[j]).kind
            != SyntaxKind::WORD by {
            assert(tokens[j].kind != SyntaxKind::WORD);
        }
        lemma_words(rest, k);
    } else {
        lemma_no_words(rest);
    }
}

proof fn lemma_no_words(tokens: Seq<LeafView>)
    requires
        forall|j: int| 0 <= j < tokens.len() ==> (#[trigger] tokens[j]).kind != SyntaxKind::WORD,
    ensures
        words(tokens).len() == 0,
    decreases tokens.len(),
{
    if tokens.len() > 0 {
        let rest = tokens.drop_last();
        assert forall|j: int| 0 <= j < rest.len() implies (#[trigger] rest[j]).kind
            != SyntaxKind::WORD by {
            assert(tokens[j].kind != SyntaxKind::WORD);
        }
        lemma_no_words(rest);
        assert(tokens[tokens.len() - 1].kind != SyntaxKind::WORD);
    }
}

proof fn lemma_first_word(tokens: Seq<LeafView>) -> (k: int)
    requires
        words(tokens).len() > 0,
    ensures
        0 <= k < tokens.len(),
        tokens[k].kind == SyntaxKind::WORD,
        forall|j: int| 0 <= j < k ==> (#[trigger] tokens[j]).kind != SyntaxKind::WORD,
    decreases tokens.len(),
{
    let rest = tokens.drop_last();
    if words(rest).len() > 0 {
        let k = lemma_first_word(rest);
        assert(tokens[k] == rest[k]);
        assert forall|j: int| 0 <= j < k implies (#[trigger] tokens[j]).kind
            != SyntaxKind::WORD by {
            assert(rest[j] == tokens[j]);
        }
        k
    } else {
        assert forall|j: int| 0 <= j < rest.len() implies (#[trigger] tokens[j]).kind
            != SyntaxKind::WORD by {
            if tokens[j].kind == SyntaxKind::WORD {
                lemma_a_word(rest, j);
            }
        }
        tokens.len() - 1
    }
}

proof fn lemma_a_word(tokens: Seq<LeafView>, j: int)
    requires
        0 <= j < tokens.len(),
        tokens[j].kind == SyntaxKind::WORD,
    ensures
        words(tokens).len() > 0,
    decreases tokens.len(),
{
    if j < tokens.len() - 1 {
        lemma_a_word(tokens.drop_last(), j);
    }
}

/// Law: the head word of a node is the first word of its first line.
pub proof fn head_word_is_the_key(node: NodeView, k: int)
    requires
        key_at(node, k),
    ensures
        node.head_word() == Some(leaf_at(node, k)),
{
    let tokens = node.header();
    lemma_on_line(node, k);
    assert forall|j: int| 0 <= j < k implies (#[trigger] tokens[j]).kind != SyntaxKind::WORD by {
        lemma_on_line(node, j);
        assert(!word_at(node, j));
    }
    lemma_words(tokens, k);
}

/// Law: a node that has a head word has a key.
pub proof fn head_word_has_a_place(node: NodeView) -> (k: int)
    requires
        node.head_word() is Some,
    ensures
        key_at(node, k),
        node.head_word() == Some(leaf_at(node, k)),
{
    let tokens = node.header();
    let k = lemma_first_word(tokens);
    lemma_on_line(node, k);
    assert forall|j: int| 0 <= j < k implies !#[trigger] word_at(node, j) by {
        lemma_on_line(node, j);
    }
    head_word_is_the_key(node, k);
    k
}

proof fn lemma_second_word(tokens: Seq<LeafView>, k: int, n: int)
    requires
        0 <= k < n < tokens.len(),
        tokens[k].kind == SyntaxKind::WORD,
        tokens[n].kind == SyntaxKind::WORD,
        forall|j: int|
            0 <= j < n && j != k ==> (#[trigger] tokens[j]).kind != SyntaxKind::WORD,
    ensures
        words(tokens).len() > 1,
        words(tokens)[1] == tokens[n],
    decreases tokens.len(),
{
    let rest = tokens.drop_last();
    if n < tokens.len() - 1 {
        assert(rest[k] == tokens[k] && rest[n] == tokens[n]);
        assert forall|j: int| 0 <= j < n && j != k implies (#[trigger] rest[j]).kind
            != SyntaxKind::WORD by {
            assert(tokens[j].kind != SyntaxKind::WORD);
        }
        lemma_second_word(rest, k, n);
    } else {
        lemma_single_word(rest, k);
    }
}

proof fn lemma_single_word(tokens: Seq<LeafView>, k: int)
    requires
        0 <= k < tokens.len(),
        tokens[k].kind == SyntaxKind::WORD,
        forall|j: int|
            0 <= j < tokens.len() && j != k ==> (#[trigger] tokens[j]).kind != SyntaxKind::WORD,
    ensures
        words(tokens).len() == 1,
    decreases tokens.len(),
{
    let rest = tokens.drop_last();
    if k < tokens.len() - 1 {
        assert(rest[k] == tokens[k]);
        assert forall|j: int| 0 <= j < rest.len() && j != k implies (#[trigger] rest[j]).kind
            != SyntaxKind::WORD by {
            assert(tokens[j].kind != SyntaxKind::WORD);
        }
        lemma_single_word(rest, k);
        assert(tokens[tokens.len() - 1].kind != SyntaxKind::WORD);
    } else {
        assert forall|j: int| 0 <= j < rest.len() implies (#[trigger] rest[j]).kind
            != SyntaxKind::WORD by {
            assert(tokens[j].kind != SyntaxKind::WORD);
        }
        lemma_no_words(rest);
    }
}

/// Law: the second word of a node is its name.
pub proof fn second_word_is_the_name(node: NodeView, n: int)
    requires
        name_at(node, n),
    ensures
        node.second_word() == Some(leaf_at(node, n)),
{
    let tokens = node.header();
    let k = choose|k: int|
        #![trigger key_at(node, k)]
        k < n && key_at(node, k) && forall|j: int| k < j < n ==> !#[trigger] word_at(node, j);
    lemma_on_line(node, n);
    lemma_on_line(node, k);
    assert forall|j: int| 0 <= j < n && j != k implies (#[trigger] tokens[j]).kind
        != SyntaxKind::WORD by {
        lemma_on_line(node, j);
        assert(!word_at(node, j));
    }
    lemma_second_word(tokens, k, n);
}

/// Law: a node that has a second word has a name.
pub proof fn second_word_has_a_place(node: NodeView) -> (n: int)
    requires
        node.second_word() is Some,
    ensures
        name_at(node, n),
        node.second_word() == Some(leaf_at(node, n)),
{
    let tokens = node.header();
    let k = head_word_has_a_place(node);
    lemma_on_line(node, k);
    assert forall|j: int| 0 <= j < k implies (#[trigger] tokens[j]).kind != SyntaxKind::WORD by {
        lemma_on_line(node, j);
        assert(!word_at(node, j));
    }
    let n = lemma_next_word(tokens, k);
    lemma_on_line(node, n);
    assert forall|j: int| k < j < n implies !#[trigger] word_at(node, j) by {
        lemma_on_line(node, j);
    }
    assert(key_at(node, k));
    assert(name_at(node, n));
    second_word_is_the_name(node, n);
    n
}

proof fn lemma_next_word(tokens: Seq<LeafView>, k: int) -> (n: int)
    requires
        words(tokens).len() > 1,
        0 <= k < tokens.len(),
        tokens[k].kind == SyntaxKind::WORD,
        forall|j: int| 0 <= j < k ==> (#[trigger] tokens[j]).kind != SyntaxKind::WORD,
    ensures
        k < n < tokens.len(),
        tokens[n].kind == SyntaxKind::WORD,
        forall|j: int| k < j < n ==> (#[trigger] tokens[j]).kind != SyntaxKind::WORD,
    decreases tokens.len(),
{
    let rest = tokens.drop_last();
    if k == tokens.len() - 1 {
        assert forall|j: int| 0 <= j < rest.len() implies (#[trigger] rest[j]).kind
            != SyntaxKind::WORD by {
            assert(tokens[j].kind != SyntaxKind::WORD);
        }
        lemma_no_words(rest);
    }
    assert(rest[k] == tokens[k]);
    assert forall|j: int| 0 <= j < k implies (#[trigger] rest[j]).kind != SyntaxKind::WORD by {
        assert(tokens[j].kind != SyntaxKind::WORD);
    }
    if words(rest).len() > 1 {
        let n = lemma_next_word(rest, k);
        assert(tokens[n] == rest[n]);
        assert forall|j: int| k < j < n implies (#[trigger] tokens[j]).kind
            != SyntaxKind::WORD by {
            assert(rest[j] == tokens[j]);
        }
        n
    } else {
        assert forall|j: int| k < j < tokens.len() - 1 implies (#[trigger] tokens[j]).kind
            != SyntaxKind::WORD by {
            if tokens[j].kind == SyntaxKind::WORD {
                assert(rest[j] == tokens[j]);
                lemma_two_words(rest, k, j);
            }
        }
        tokens.len() - 1
    }
}

proof fn lemma_two_words(tokens: Seq<LeafView>, k: int, n: int)
    requires
        0 <= k < n < tokens.len(),
        tokens[k].kind == SyntaxKind::WORD,
        tokens[n].kind == SyntaxKind::WORD,
    ensures
        words(tokens).len() > 1,
    decreases tokens.len(),
{
    let rest = tokens.drop_last();
    assert(rest[k] == tokens[k]);
    if n < tokens.len() - 1 {
        assert(rest[n] == tokens[n]);
        lemma_two_words(rest, k, n);
    } else {
        lemma_a_word(rest, k);
    }
}

proof fn lemma_values_hold(tokens: Seq<LeafView>, k: int, i: int) -> (p: int)
    requires
        0 <= k < i < tokens.len(),
        tokens[k].kind == SyntaxKind::WORD,
        tokens[i].kind == SyntaxKind::WORD || tokens[i].kind == SyntaxKind::STRING,
    ensures
        0 <= p < values_after_key(tokens).len(),
        values_after_key(tokens)[p] == tokens[i],
    decreases tokens.len(),
{
    let rest = tokens.drop_last();
    if i < tokens.len() - 1 {
        assert(rest[i] == tokens[i] && rest[k] == tokens[k]);
        lemma_values_hold(rest, k, i)
    } else {
        assert(rest[k] == tokens[k]);
        lemma_a_word(rest, k);
        values_after_key(rest).len() as int
    }
}

proof fn lemma_value_origin(tokens: Seq<LeafView>, p: int) -> (out: (int, int))
    requires
        0 <= p < values_after_key(tokens).len(),
    ensures
        0 <= out.0 < out.1 < tokens.len(),
        tokens[out.0].kind == SyntaxKind::WORD,
        forall|j: int| 0 <= j < out.0 ==> (#[trigger] tokens[j]).kind != SyntaxKind::WORD,
        tokens[out.1] == values_after_key(tokens)[p],
        tokens[out.1].kind == SyntaxKind::WORD || tokens[out.1].kind == SyntaxKind::STRING,
        forall|q: int|
            #![trigger values_after_key(tokens)[q]]
            p < q < values_after_key(tokens).len() ==> exists|j: int|
                out.1 < j < tokens.len() && #[trigger] tokens[j] == values_after_key(tokens)[q],
    decreases tokens.len(),
{
    let rest = tokens.drop_last();
    if p < values_after_key(rest).len() {
        let out = lemma_value_origin(rest, p);
        assert(rest[out.0] == tokens[out.0] && rest[out.1] == tokens[out.1]);
        assert forall|j: int| 0 <= j < out.0 implies (#[trigger] tokens[j]).kind
            != SyntaxKind::WORD by {
            assert(rest[j] == tokens[j]);
        }
        assert forall|q: int|
            #![trigger values_after_key(tokens)[q]]
            p < q < values_after_key(tokens).len() implies exists|j: int|
            out.1 < j < tokens.len() && #[trigger] tokens[j] == values_after_key(tokens)[q] by {
            if q < values_after_key(rest).len() {
                assert(values_after_key(rest)[q] == values_after_key(tokens)[q]);
                let j = choose|j: int|
                    out.1 < j < rest.len() && #[trigger] rest[j] == values_after_key(rest)[q];
                assert(tokens[j] == rest[j]);
            } else {
                assert(tokens[tokens.len() - 1] == values_after_key(tokens)[q]);
            }
        }
        out
    } else {
        let k = lemma_first_word(rest);
        assert(rest[k] == tokens[k]);
        assert forall|j: int| 0 <= j < k implies (#[trigger] tokens[j]).kind
            != SyntaxKind::WORD by {
            assert(rest[j] == tokens[j]);
        }
        (k, tokens.len() - 1)
    }
}

/// Law: every word and string behind the key of a node is one of its values.
pub proof fn values_hold_what_follows_the_key(node: NodeView, i: int) -> (p: int)
    requires
        value_at(node, i),
    ensures
        0 <= p < node.values().len(),
        node.values()[p] == leaf_at(node, i),
{
    let tokens = node.header();
    let k = choose|k: int| k < i && #[trigger] key_at(node, k);
    lemma_on_line(node, i);
    lemma_on_line(node, k);
    lemma_values_hold(tokens, k, i)
}

/// Law: every value of a node is a word or a string behind its key.
pub proof fn values_follow_the_key(node: NodeView, p: int) -> (i: int)
    requires
        0 <= p < node.values().len(),
    ensures
        value_at(node, i),
        node.values()[p] == leaf_at(node, i),
{
    let tokens = node.header();
    let (k, i) = lemma_value_origin(tokens, p);
    lemma_on_line(node, i);
    lemma_on_line(node, k);
    assert forall|j: int| 0 <= j < k implies !#[trigger] word_at(node, j) by {
        lemma_on_line(node, j);
    }
    assert(key_at(node, k));
    i
}

/// The places of the values of a node, in order.
pub open spec fn value_places(node: NodeView, places: Seq<int>) -> bool {
    &&& forall|p: int| 0 <= p < places.len() ==> value_at(node, #[trigger] places[p])
    &&& forall|p: int, q: int| #![trigger places[p], places[q]]
        0 <= p < q < places.len() ==> places[p] < places[q]
    &&& forall|i: int| #[trigger] value_at(node, i) ==> places.contains(i)
}

spec fn value_token(tokens: Seq<LeafView>, i: int) -> bool {
    &&& 0 <= i < tokens.len()
    &&& tokens[i].kind == SyntaxKind::WORD || tokens[i].kind == SyntaxKind::STRING
    &&& exists|k: int| 0 <= k < i && (#[trigger] tokens[k]).kind == SyntaxKind::WORD
}

proof fn lemma_value_order(tokens: Seq<LeafView>, places: Seq<int>)
    requires
        forall|p: int| 0 <= p < places.len() ==> value_token(tokens, #[trigger] places[p]),
        forall|p: int, q: int| #![trigger places[p], places[q]]
            0 <= p < q < places.len() ==> places[p] < places[q],
        forall|i: int| #[trigger] value_token(tokens, i) ==> places.contains(i),
    ensures
        values_after_key(tokens).len() == places.len(),
        forall|p: int|
            0 <= p < places.len() ==> values_after_key(tokens)[p] == tokens[#[trigger] places[p]],
    decreases tokens.len(),
{
    if tokens.len() == 0 {
        if places.len() > 0 {
            assert(value_token(tokens, places[0]));
        }
    } else {
        let rest = tokens.drop_last();
        let n = tokens.len() - 1;
        assert forall|i: int| 0 <= i < n implies value_token(rest, i) == value_token(
            tokens,
            i,
        ) by {
            assert(rest[i] == tokens[i]);
            if value_token(tokens, i) {
                let k = choose|k: int|
                    0 <= k < i && (#[trigger] tokens[k]).kind == SyntaxKind::WORD;
                assert(rest[k] == tokens[k]);
            }
            if value_token(rest, i) {
                let k = choose|k: int| 0 <= k < i && (#[trigger] rest[k]).kind == SyntaxKind::WORD;
                assert(tokens[k] == rest[k]);
            }
        }
        if words(rest).len() > 0 {
            let k = lemma_first_word(rest);
            assert(tokens[k] == rest[k]);
        } else if exists|k: int| 0 <= k < n && (#[trigger] tokens[k]).kind == SyntaxKind::WORD {
            let k = choose|k: int| 0 <= k < n && (#[trigger] tokens[k]).kind == SyntaxKind::WORD;
            assert(rest[k] == tokens[k]);
            lemma_a_word(rest, k);
        }
        let ends = value_token(tokens, n);
        let before = if ends {
            places.drop_last()
        } else {
            places
        };
        if ends {
            let p = choose|p: int| 0 <= p < places.len() && places[p] == n;
            if p < places.len() - 1 {
                assert(value_token(tokens, places[places.len() - 1]));
                assert(places[p] < places[places.len() - 1]);
            }
            assert(places.last() == n);
        }
        assert forall|p: int| 0 <= p < before.len() implies value_token(
            rest,
            #[trigger] before[p],
        ) by {
            assert(before[p] == places[p]);
            assert(value_token(tokens, places[p]));
            if ends {
                assert(places[p] < places[places.len() - 1]);
            } else {
                assert(places[p] != n);
            }
        }
        assert forall|p: int, q: int| #![trigger before[p], before[q]]
            0 <= p < q < before.len() implies before[p] < before[q] by {
            assert(before[p] == places[p] && before[q] == places[q]);
        }
        assert forall|i: int| #[trigger] value_token(rest, i) implies before.contains(i) by {
            assert(value_token(tokens, i));
            let p = choose|p: int| 0 <= p < places.len() && places[p] == i;
            assert(before[p] == i);
        }
        lemma_value_order(rest, before);
        assert forall|p: int| 0 <= p < places.len() implies values_after_key(tokens)[p]
            == tokens[#[trigger] places[p]] by {
            if p < before.len() {
                assert(before[p] == places[p]);
                assert(value_token(rest, before[p]));
                assert(values_after_key(rest)[p] == rest[before[p]]);
            }
        }
    }
}

/// Law: the values of a node come in the order of their places.
pub proof fn values_come_in_order(node: NodeView, places: Seq<int>)
    requires
        value_places(node, places),
    ensures
        node.values().len() == places.len(),
        forall|p: int|
            0 <= p < places.len() ==> node.values()[p] == leaf_at(node, #[trigger] places[p]),
{
    let tokens = node.header();
    assert forall|i: int| value_token(tokens, i) == value_at(node, i) by {
        lemma_on_line(node, i);
        if value_token(tokens, i) {
            let k = choose|k: int| 0 <= k < i && (#[trigger] tokens[k]).kind == SyntaxKind::WORD;
            lemma_a_word(tokens, k);
            let f = head_word_has_a_place(node);
            lemma_on_line(node, f);
            lemma_on_line(node, k);
            assert(word_at(node, k));
            assert(f <= k);
        }
        if value_at(node, i) {
            let k = choose|k: int| k < i && #[trigger] key_at(node, k);
            lemma_on_line(node, k);
            assert(tokens[k].kind == SyntaxKind::WORD);
        }
    }
    assert forall|p: int| 0 <= p < places.len() implies value_token(
        tokens,
        #[trigger] places[p],
    ) by {
        assert(value_at(node, places[p]));
    }
    assert forall|i: int| #[trigger] value_token(tokens, i) implies places.contains(i) by {
        assert(value_at(node, i));
    }
    lemma_value_order(tokens, places);
    assert forall|p: int| 0 <= p < places.len() implies node.values()[p] == leaf_at(
        node,
        #[trigger] places[p],
    ) by {
        lemma_on_line(node, places[p]);
    }
}

proof fn lemma_no_equals(tokens: Seq<LeafView>)
    ensures
        has_equals(tokens) <==> exists|j: int|
            0 <= j < tokens.len() && (#[trigger] tokens[j]).kind == SyntaxKind::EQUALS,
    decreases tokens.len(),
{
    if tokens.len() > 0 {
        let rest = tokens.drop_last();
        lemma_no_equals(rest);
        if has_equals(rest) {
            let j = choose|j: int|
                0 <= j < rest.len() && (#[trigger] rest[j]).kind == SyntaxKind::EQUALS;
            assert(tokens[j] == rest[j]);
        }
        if tokens.last().kind == SyntaxKind::EQUALS {
            assert(tokens[tokens.len() - 1].kind == SyntaxKind::EQUALS);
        }
        if exists|j: int| 0 <= j < tokens.len() && (#[trigger] tokens[j]).kind == SyntaxKind::EQUALS {
            let j = choose|j: int|
                0 <= j < tokens.len() && (#[trigger] tokens[j]).kind == SyntaxKind::EQUALS;
            if j < rest.len() {
                assert(rest[j] == tokens[j]);
            }
        }
    }
}

proof fn lemma_argument(tokens: Seq<LeafView>, e: int, i: int)
    requires
        0 <= e < i < tokens.len(),
        tokens[e].kind == SyntaxKind::EQUALS,
        tokens[i].kind == SyntaxKind::WORD,
        forall|d: int, j: int| #![trigger tokens[d], tokens[j]]
            0 <= d < j < i && tokens[d].kind == SyntaxKind::EQUALS ==> tokens[j].kind
                != SyntaxKind::WORD,
    ensures
        words_after_equals(tokens).len() > 0,
        words_after_equals(tokens)[0] == tokens[i],
    decreases tokens.len(),
{
    let rest = tokens.drop_last();
    if i < tokens.len() - 1 {
        assert(rest[e] == tokens[e] && rest[i] == tokens[i]);
        assert forall|d: int, j: int| #![trigger rest[d], rest[j]]
            0 <= d < j < i && rest[d].kind == SyntaxKind::EQUALS implies rest[j].kind
            != SyntaxKind::WORD by {
            assert(tokens[d] == rest[d] && tokens[j] == rest[j]);
        }
        lemma_argument(rest, e, i);
    } else {
        assert(rest[e] == tokens[e]);
        lemma_no_equals(rest);
        lemma_no_argument(rest);
    }
}

proof fn lemma_no_argument(tokens: Seq<LeafView>)
    requires
        forall|d: int, j: int| #![trigger tokens[d], tokens[j]]
            0 <= d < j < tokens.len() && tokens[d].kind == SyntaxKind::EQUALS ==> tokens[j].kind
                != SyntaxKind::WORD,
    ensures
        words_after_equals(tokens).len() == 0,
    decreases tokens.len(),
{
    if tokens.len() > 0 {
        let rest = tokens.drop_last();
        assert forall|d: int, j: int| #![trigger rest[d], rest[j]]
            0 <= d < j < rest.len() && rest[d].kind == SyntaxKind::EQUALS implies rest[j].kind
            != SyntaxKind::WORD by {
            assert(tokens[d] == rest[d] && tokens[j] == rest[j]);
        }
        lemma_no_argument(rest);
        lemma_no_equals(rest);
        if has_equals(rest) {
            let d = choose|d: int|
                0 <= d < rest.len() && (#[trigger] rest[d]).kind == SyntaxKind::EQUALS;
            assert(tokens[d] == rest[d]);
            assert(tokens[tokens.len() - 1].kind != SyntaxKind::WORD);
        }
    }
}

/// Law: what follows the `=` of a node first is the first word behind one.
pub proof fn argument_follows_the_equals(node: NodeView, i: int)
    requires
        argument_at(node, i),
    ensures
        node.after_equals(0) == Some(leaf_at(node, i)),
{
    let tokens = node.header();
    let e = choose|e: int|
        #![trigger equals_at(node, e)]
        e < i && equals_at(node, e) && forall|j: int| e < j < i ==> !#[trigger] word_at(node, j);
    lemma_on_line(node, i);
    lemma_on_line(node, e);
    assert forall|d: int, j: int| #![trigger tokens[d], tokens[j]]
        0 <= d < j < i && tokens[d].kind == SyntaxKind::EQUALS implies tokens[j].kind
        != SyntaxKind::WORD by {
        lemma_on_line(node, d);
        lemma_on_line(node, j);
        assert(equals_at(node, d));
        assert(!word_at(node, j));
    }
    lemma_argument(tokens, e, i);
}

/// Token `t` of a node is the second word behind the first `=` of its line.
pub open spec fn tag_at(node: NodeView, t: int) -> bool {
    &&& word_at(node, t)
    &&& exists|a: int|
        #![trigger argument_at(node, a)]
        a < t && argument_at(node, a) && forall|j: int| a < j < t ==> !#[trigger] word_at(node, j)
}

/// The line of a node has one word behind its first `=`, token `a`.
pub open spec fn untagged(node: NodeView, a: int) -> bool {
    argument_at(node, a) && forall|j: int| a < j ==> !#[trigger] word_at(node, j)
}

proof fn lemma_tag(tokens: Seq<LeafView>, e: int, a: int, t: int)
    requires
        0 <= e < a < t <= tokens.len(),
        tokens[e].kind == SyntaxKind::EQUALS,
        tokens[a].kind == SyntaxKind::WORD,
        forall|d: int, j: int| #![trigger tokens[d], tokens[j]]
            0 <= d < j < a && tokens[d].kind == SyntaxKind::EQUALS ==> tokens[j].kind
                != SyntaxKind::WORD,
        forall|j: int| a < j < t ==> (#[trigger] tokens[j]).kind != SyntaxKind::WORD,
        t < tokens.len() ==> tokens[t].kind == SyntaxKind::WORD,
    ensures
        t == tokens.len() ==> words_after_equals(tokens).len() == 1,
        t < tokens.len() ==> words_after_equals(tokens).len() > 1
            && words_after_equals(tokens)[1] == tokens[t],
    decreases tokens.len(),
{
    let rest = tokens.drop_last();
    let n = tokens.len() - 1;
    assert forall|d: int, j: int| #![trigger rest[d], rest[j]]
        0 <= d < j < a && d < rest.len() && j < rest.len() && rest[d].kind
            == SyntaxKind::EQUALS implies rest[j].kind != SyntaxKind::WORD by {
        assert(tokens[d] == rest[d] && tokens[j] == rest[j]);
    }
    assert(rest[e] == tokens[e]);
    lemma_no_equals(rest);
    assert(has_equals(rest));
    if a == n {
        lemma_no_argument(rest);
    } else {
        assert(rest[a] == tokens[a]);
        assert forall|j: int| a < j < t && j < rest.len() implies (#[trigger] rest[j]).kind
            != SyntaxKind::WORD by {
            assert(tokens[j] == rest[j]);
        }
        if t < n {
            assert(rest[t] == tokens[t]);
            lemma_tag(rest, e, a, t);
        } else {
            lemma_tag(rest, e, a, n);
            if t > n {
                assert(tokens[n].kind != SyntaxKind::WORD);
            }
        }
    }
}

/// Law: what follows the `=` of a node second is the second word behind it.
pub proof fn tag_follows_the_argument(node: NodeView, t: int)
    requires
        tag_at(node, t),
    ensures
        node.after_equals(1) == Some(leaf_at(node, t)),
{
    let a = choose|a: int|
        #![trigger argument_at(node, a)]
        a < t && argument_at(node, a) && forall|j: int| a < j < t ==> !#[trigger] word_at(node, j);
    lemma_on_line(node, t);
    lemma_tag_place(node, a, t);
}

/// Law: nothing follows a single word behind the `=` of a node.
pub proof fn untagged_nodes_have_no_tag(node: NodeView, a: int)
    requires
        untagged(node, a),
    ensures
        node.after_equals(1) is None,
{
    lemma_on_line(node, a);
    let n = node.header().len() as int;
    lemma_on_line(node, n);
    lemma_tag_place(node, a, n);
}

proof fn lemma_tag_place(node: NodeView, a: int, t: int)
    requires
        argument_at(node, a),
        a < t <= node.header().len(),
        forall|j: int| a < j < t ==> !#[trigger] word_at(node, j),
        t < node.header().len() ==> word_at(node, t),
    ensures
        t == node.header().len() ==> node.after_equals(1) is None,
        t < node.header().len() ==> node.after_equals(1) == Some(leaf_at(node, t)),
{
    let tokens = node.header();
    let e = choose|e: int|
        #![trigger equals_at(node, e)]
        e < a && equals_at(node, e) && forall|j: int| e < j < a ==> !#[trigger] word_at(node, j);
    lemma_on_line(node, a);
    lemma_on_line(node, e);
    lemma_on_line(node, t);
    assert forall|d: int, j: int| #![trigger tokens[d], tokens[j]]
        0 <= d < j < a && tokens[d].kind == SyntaxKind::EQUALS implies tokens[j].kind
        != SyntaxKind::WORD by {
        lemma_on_line(node, d);
        lemma_on_line(node, j);
        assert(equals_at(node, d));
        assert(!word_at(node, j));
    }
    assert forall|j: int| a < j < t implies (#[trigger] tokens[j]).kind != SyntaxKind::WORD by {
        lemma_on_line(node, j);
        assert(!word_at(node, j));
    }
    lemma_tag(tokens, e, a, t);
}

/// Law: a node has nothing behind its `=` where no word follows one.
pub proof fn bare_nodes_have_no_argument(node: NodeView)
    requires
        forall|e: int, j: int| #![trigger equals_at(node, e), word_at(node, j)]
            e < j && equals_at(node, e) ==> !word_at(node, j),
    ensures
        node.after_equals(0) is None,
{
    let tokens = node.header();
    assert forall|d: int, j: int| #![trigger tokens[d], tokens[j]]
        0 <= d < j < tokens.len() && tokens[d].kind == SyntaxKind::EQUALS implies tokens[j].kind
        != SyntaxKind::WORD by {
        lemma_on_line(node, d);
        lemma_on_line(node, j);
        assert(equals_at(node, d));
        assert(!word_at(node, j));
    }
    lemma_no_argument(tokens);
}

// ---------------------------------------------------------------------------
// Looking names up
// ---------------------------------------------------------------------------
/// Law: the block type of a name is the last entry with that name.
pub proof fn last_block_type_counts(blocks: Seq<BlockType>, b: int)
    requires
        counts_block(blocks, b),
    ensures
        block_named(blocks, blocks[b].name@) == Some(blocks[b]),
    decreases blocks.len(),
{
    if b < blocks.len() - 1 {
        let rest = blocks.drop_last();
        assert(rest[b] == blocks[b]);
        assert forall|c: int| b < c < rest.len() implies (#[trigger] rest[c]).name@
            != rest[b].name@ by {
            assert(blocks[c].name@ != blocks[b].name@);
        }
        last_block_type_counts(rest, b);
        assert(blocks[blocks.len() - 1].name@ != blocks[b].name@);
    }
}

/// Law: a name that no block type has is unknown, and only such a name is.
pub proof fn unknown_block_types_have_no_entry(blocks: Seq<BlockType>, name: Seq<char>)
    ensures
        block_named(blocks, name) is None <==> forall|b: int|
            0 <= b < blocks.len() ==> (#[trigger] blocks[b]).name@ != name,
    decreases blocks.len(),
{
    if blocks.len() > 0 {
        let rest = blocks.drop_last();
        unknown_block_types_have_no_entry(rest, name);
        assert(blocks.last() == blocks[blocks.len() - 1]);
        if block_named(rest, name) is None {
            assert forall|b: int| 0 <= b < rest.len() implies (#[trigger] blocks[b]).name@
                != name by {
                assert(rest[b].name@ != name);
            }
        } else {
            let b = choose|b: int| 0 <= b < rest.len() && (#[trigger] rest[b]).name@ == name;
            assert(blocks[b].name@ == name);
        }
    }
}

/// Law: the module type of a name is the last entry with that name.
pub proof fn last_module_type_counts(modules: Seq<ModuleType>, m: int)
    requires
        counts_module(modules, m),
    ensures
        module_named(modules, modules[m].name@) == Some(modules[m]),
    decreases modules.len(),
{
    if m < modules.len() - 1 {
        let rest = modules.drop_last();
        assert(rest[m] == modules[m]);
        assert forall|c: int| m < c < rest.len() implies (#[trigger] rest[c]).name@
            != rest[m].name@ by {
            assert(modules[c].name@ != modules[m].name@);
        }
        last_module_type_counts(rest, m);
        assert(modules[modules.len() - 1].name@ != modules[m].name@);
    }
}

/// Law: a name that no module type has is unknown, and only such a name is.
pub proof fn unknown_module_types_have_no_entry(modules: Seq<ModuleType>, name: Seq<char>)
    ensures
        module_named(modules, name) is None <==> forall|m: int|
            0 <= m < modules.len() ==> (#[trigger] modules[m]).name@ != name,
    decreases modules.len(),
{
    if modules.len() > 0 {
        let rest = modules.drop_last();
        unknown_module_types_have_no_entry(rest, name);
        assert(modules.last() == modules[modules.len() - 1]);
        if module_named(rest, name) is None {
            assert forall|m: int| 0 <= m < rest.len() implies (#[trigger] modules[m]).name@
                != name by {
                assert(rest[m].name@ != name);
            }
        } else {
            let m = choose|m: int| 0 <= m < rest.len() && (#[trigger] rest[m]).name@ == name;
            assert(modules[m].name@ == name);
        }
    }
}

/// Law: the field of a name is the first entry with that name.
pub proof fn first_field_counts(fields: Seq<Field>, f: int)
    requires
        counts_field(fields, f),
    ensures
        field_named(fields, fields[f].name@) == Some(fields[f]),
    decreases fields.len(),
{
    if f > 0 {
        let rest = fields.drop_first();
        assert(rest[f - 1] == fields[f]);
        assert forall|c: int| 0 <= c < f - 1 implies (#[trigger] rest[c]).name@ != rest[f
            - 1].name@ by {
            assert(fields[c + 1].name@ != fields[f].name@);
        }
        first_field_counts(rest, f - 1);
        assert(fields[0].name@ != fields[f].name@);
    }
}

/// Law: a name that no field has is unknown, and only such a name is.
pub proof fn unknown_fields_have_no_entry(fields: Seq<Field>, name: Seq<char>)
    ensures
        field_named(fields, name) is None <==> forall|f: int|
            0 <= f < fields.len() ==> (#[trigger] fields[f]).name@ != name,
    decreases fields.len(),
{
    if fields.len() > 0 {
        let rest = fields.drop_first();
        unknown_fields_have_no_entry(rest, name);
        if field_named(rest, name) is None {
            assert forall|f: int| 0 < f < fields.len() implies (#[trigger] fields[f]).name@
                != name by {
                assert(rest[f - 1].name@ != name);
            }
        } else {
            let f = choose|f: int| 0 <= f < rest.len() && (#[trigger] rest[f]).name@ == name;
            assert(fields[f + 1].name@ == name);
        }
    }
}

/// The type of a line, as the scope around it gives it.
pub proof fn lemma_declared(scope: ScopeView, field: NodeView, ty: ValueType)
    requires
        declared(scope.fields(), field, ty),
    ensures
        field_type(scope, field) == Some(ty),
        field.head_word() is Some,
        scope.field(field.head_word()->0.text) is Some,
        scope.field(field.head_word()->0.text)->0.value_type == ty,
{
    let fields = scope.fields();
    let f = choose|f: int|
        counts_field(fields, f) && key_is(field, (#[trigger] fields[f]).name@)
            && fields[f].value_type == ty;
    let k = choose|k: int|
        #[trigger] key_at(field, k) && leaf_at(field, k).text == fields[f].name@;
    head_word_is_the_key(field, k);
    first_field_counts(fields, f);
}

/// The scope of a block is that of its type.
pub proof fn lemma_block_type(schema: Schema, block: NodeView, b: int)
    requires
        block_type_is(schema, block, b),
    ensures
        block_scope(schema, block) == ScopeView::Block(schema.blocks@[b]),
        block.head_word() is Some,
        block.head_word()->0.text == schema.blocks@[b].name@,
        block_named(schema.blocks@, block.head_word()->0.text) == Some(schema.blocks@[b]),
{
    let k = choose|k: int|
        #[trigger] key_at(block, k) && leaf_at(block, k).text == schema.blocks@[b].name@;
    head_word_is_the_key(block, k);
    last_block_type_counts(schema.blocks@, b);
}

/// The scope of a module is that of its type.
pub proof fn lemma_module_type(schema: Schema, module: NodeView, m: int)
    requires
        module_type_is(schema, module, m),
    ensures
        module_scope(schema, module) == ScopeView::Module(schema.modules@[m]),
        module.after_equals(0) is Some,
        module.after_equals(0)->0.text == schema.modules@[m].name@,
        module_named(schema.modules@, module.after_equals(0)->0.text) == Some(schema.modules@[m]),
{
    let k = choose|k: int|
        #[trigger] argument_at(module, k) && leaf_at(module, k).text == schema.modules@[m].name@;
    argument_follows_the_equals(module, k);
    last_module_type_counts(schema.modules@, m);
}

/// A module whose key is a slot of its block fills the slot.
pub proof fn lemma_in_slot(schema: Schema, b: int, module: NodeView)
    requires
        in_slot(schema, b, module),
    ensures
        fills_slot(ScopeView::Block(schema.blocks@[b]), module),
        module.head_word() is Some,
        has_slot(schema.blocks@[b].module_slots@, module.head_word()->0.text),
{
    let slots = schema.blocks@[b].module_slots@;
    let s = choose|s: int|
        0 <= s < slots.len() && key_is(module, (#[trigger] slots[s]).keyword@);
    let k = choose|k: int|
        #[trigger] key_at(module, k) && leaf_at(module, k).text == slots[s].keyword@;
    head_word_is_the_key(module, k);
    assert(slots[s].keyword@ == module.head_word()->0.text);
}

/// The nodes around a line of a block or a module.
pub open spec fn around(block: NodeView, inner: Option<NodeView>) -> Seq<NodeView> {
    match inner {
        None => seq![block],
        Some(module) => seq![block, module],
    }
}

/// The scope around a line gives the type that is declared for it.
pub proof fn lemma_line_type(
    schema: Schema,
    children: Seq<ChildView>,
    c: int,
    block: NodeView,
    inner: Option<NodeView>,
    field: NodeView,
    ty: ValueType,
)
    requires
        line_has_type(schema, children, c, block, inner, field, ty),
    ensures
        ({
            let scope = path_scope(schema, around(block, inner));
            &&& field_type(scope, field) == Some(ty)
            &&& field.head_word() is Some
            &&& scope.field(field.head_word()->0.text) is Some
            &&& scope.field(field.head_word()->0.text)->0.value_type == ty
            &&& scope == match inner {
                None => block_scope(schema, block),
                Some(module) => module_scope(schema, module),
            }
            &&& inner matches Some(module) ==> fills_slot(block_scope(schema, block), module)
                && scope_of(schema, block_scope(schema, block), module) == scope
        }),
{
    reveal_with_fuel(path_scope, 4);
    match inner {
        None => {
            let b = choose|b: int| #[trigger]
                block_type_is(schema, block, b) && declared(schema.blocks@[b].fields@, field, ty);
            lemma_block_type(schema, block, b);
            lemma_declared(block_scope(schema, block), field, ty);
            assert(around(block, inner).drop_last() =~= Seq::<NodeView>::empty());
        },
        Some(module) => {
            let b = choose|b: int| #[trigger]
                block_type_is(schema, block, b) && in_slot(schema, b, module);
            let m = choose|m: int| #[trigger]
                module_type_is(schema, module, m) && declared(
                    schema.modules@[m].fields@,
                    field,
                    ty,
                );
            lemma_block_type(schema, block, b);
            lemma_module_type(schema, module, m);
            lemma_in_slot(schema, b, module);
            lemma_declared(module_scope(schema, module), field, ty);
            assert(around(block, inner).drop_last() =~= seq![block]);
            assert(seq![block].drop_last() =~= Seq::<NodeView>::empty());
        },
    }
}

} // verus!
