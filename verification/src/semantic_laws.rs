//! Laws of highlighting: what each token of a document is shown as, in terms of the
//! line that it stands on and of what the schema declares.

use vstd::prelude::*;
use vstd::string::*;

use crate::analyzer::Span;
use crate::index::span_at;
use crate::kind::SyntaxKind;
use crate::layout::{lemma_document_at, lemma_tiled_at, parse_tiles_the_text, tiled};
use crate::lines::{
    argument_at, argument_follows_the_equals, block_type_is, counts_field, declared,
    head_word_has_a_place, head_word_is_the_key, holds_node, in_slot, key_at, key_is, leaf_at,
    lemma_block_type, lemma_in_slot, lemma_line_type, line_has_type, name_at, on_line,
    second_word_is_the_name, value_at, values_follow_the_key, values_hold_what_follows_the_key,
    word_at,
};
use crate::model::{block_scope, field_named, module_scope, ScopeView};
use crate::outline::leaf_span;
use crate::parser::{parse_text, ChildView, OpenerOracle};
use crate::schema::{block_named, module_named, BlockType, Field, ModuleType, Schema, ValueType};
use crate::semantic::{
    element_tokens, field_type, fills_slot, header_marks, inner_scope, leaf_kind, mark_at, marked,
    marked_values, tokens_in, tokens_of, value_kind, SemKind, SemToken,
};
use crate::text::{blen, same_ignoring_case};
use crate::tree::{ElementView, LeafView, NodeView};

verus! {

/// The place of a token in the document.
pub open spec fn is_shown(
    tokens: Seq<SemToken>,
    offset: int,
    leaf: LeafView,
    kind: SemKind,
) -> bool {
    exists|i: int|
        0 <= i < tokens.len() && (#[trigger] tokens[i]).kind == kind && tokens[i].span.start
            == offset + leaf.start && tokens[i].span.end == offset + leaf.end
}

/// Types whose values are numbers, or made of numbers.
pub open spec fn is_numeric(ty: ValueType) -> bool {
    ||| ty is Int || ty is UInt || ty is Real || ty is PositiveReal || ty is AngleReal
    ||| ty is Percent || ty is Duration || ty is Velocity || ty is Acceleration
    ||| ty is Color || ty is Coord2D || ty is Coord3D
}

/// Types whose values are drawn from a fixed set of words.
pub open spec fn is_choice(ty: ValueType) -> bool {
    ty is Bool || ty is Enum || ty is BitFlags
}

// ---------------------------------------------------------------------------
// Nothing gets lost
// ---------------------------------------------------------------------------
proof fn lemma_grow(
    schema: Schema,
    e: ElementView,
    offset: int,
    scope: ScopeView,
    marks: Seq<(int, SemKind)>,
    acc: Seq<SemToken>,
    t: SemToken,
)
    requires
        acc.contains(t),
    ensures
        element_tokens(schema, e, offset, scope, marks, acc).contains(t),
    decreases e,
{
    match e {
        ElementView::Token(leaf) => {
            if let Some(kind) = leaf_kind(leaf, marks) {
                let i = choose|i: int| 0 <= i < acc.len() && acc[i] == t;
                assert(element_tokens(schema, e, offset, scope, marks, acc)[i] == t);
            }
        },
        ElementView::Node(node) => {
            lemma_grow_in(
                schema,
                node.children,
                offset,
                inner_scope(schema, scope, node),
                header_marks(scope, node),
                acc,
                t,
            );
        },
    }
}

proof fn lemma_grow_in(
    schema: Schema,
    elements: Seq<ElementView>,
    offset: int,
    scope: ScopeView,
    marks: Seq<(int, SemKind)>,
    acc: Seq<SemToken>,
    t: SemToken,
)
    requires
        acc.contains(t),
    ensures
        tokens_in(schema, elements, offset, scope, marks, acc).contains(t),
    decreases elements,
{
    if elements.len() > 0 {
        let before = tokens_in(schema, elements.drop_last(), offset, scope, marks, acc);
        lemma_grow_in(schema, elements.drop_last(), offset, scope, marks, acc, t);
        lemma_grow(schema, elements.last(), offset, scope, marks, before, t);
    }
}

/// What child `i` of a node adds is kept.
proof fn lemma_child_kept(
    schema: Schema,
    elements: Seq<ElementView>,
    i: int,
    offset: int,
    scope: ScopeView,
    marks: Seq<(int, SemKind)>,
    acc: Seq<SemToken>,
    t: SemToken,
)
    requires
        0 <= i < elements.len(),
        element_tokens(
            schema,
            elements[i],
            offset,
            scope,
            marks,
            tokens_in(schema, elements.take(i), offset, scope, marks, acc),
        ).contains(t),
    ensures
        tokens_in(schema, elements, offset, scope, marks, acc).contains(t),
    decreases elements.len(),
{
    let rest = elements.drop_last();
    let before = tokens_in(schema, rest, offset, scope, marks, acc);
    if i < elements.len() - 1 {
        assert(rest.take(i) =~= elements.take(i));
        lemma_child_kept(schema, rest, i, offset, scope, marks, acc, t);
        lemma_grow(schema, elements.last(), offset, scope, marks, before, t);
    } else {
        assert(elements.take(i) =~= rest);
    }
}

/// What top-level element `c` adds is kept.
proof fn lemma_element_kept(schema: Schema, children: Seq<ChildView>, c: int, t: SemToken)
    requires
        0 <= c < children.len(),
        element_tokens(
            schema,
            children[c].element,
            children[c].offset,
            ScopeView::Unknown,
            Seq::empty(),
            tokens_of(schema, children.take(c), None),
        ).contains(t),
    ensures
        tokens_of(schema, children, None).contains(t),
    decreases children.len(),
{
    let rest = children.drop_last();
    if c < children.len() - 1 {
        assert(rest.take(c) =~= children.take(c));
        lemma_element_kept(schema, rest, c, t);
        lemma_grow(
            schema,
            children.last().element,
            children.last().offset,
            ScopeView::Unknown,
            Seq::empty(),
            tokens_of(schema, rest, None),
            t,
        );
    } else {
        assert(children.take(c) =~= rest);
    }
}

/// A token of a top-level block is kept.
proof fn lemma_block_token_kept(
    schema: Schema,
    children: Seq<ChildView>,
    c: int,
    block: NodeView,
    i: int,
    t: SemToken,
)
    requires
        0 <= c < children.len(),
        children[c].element == ElementView::Node(block),
        block.kind == SyntaxKind::BLOCK,
        0 <= i < block.children.len(),
        forall|acc: Seq<SemToken>| #[trigger]
            element_tokens(
                schema,
                block.children[i],
                children[c].offset,
                block_scope(schema, block),
                header_marks(ScopeView::Unknown, block),
                acc,
            ).contains(t),
    ensures
        tokens_of(schema, children, None).contains(t),
{
    let offset = children[c].offset;
    let marks = header_marks(ScopeView::Unknown, block);
    let scope = block_scope(schema, block);
    let before = tokens_of(schema, children.take(c), None);
    let own = tokens_in(schema, block.children.take(i), offset, scope, marks, before);
    assert(element_tokens(schema, block.children[i], offset, scope, marks, own).contains(t));
    lemma_child_kept(schema, block.children, i, offset, scope, marks, before, t);
    lemma_element_kept(schema, children, c, t);
}

/// A token of a line is kept, wherever the line stands.
proof fn lemma_line_token_kept(
    schema: Schema,
    children: Seq<ChildView>,
    c: int,
    block: NodeView,
    inner: Option<NodeView>,
    field: NodeView,
    ty: ValueType,
    i: int,
    kind: SemKind,
)
    requires
        line_has_type(schema, children, c, block, inner, field, ty),
        on_line(field, i),
        ({
            let marks = marked_values(
                marked(Seq::empty(), field.head_word(), SemKind::Field),
                field.values(),
                Some(ty),
            );
            leaf_kind(leaf_at(field, i), marks) == Some(kind)
        }),
    ensures
        tokens_of(schema, children, None).contains(
            SemToken { span: leaf_span(leaf_at(field, i), children[c].offset), kind },
        ),
{
    lemma_line_type(schema, children, c, block, inner, field, ty);
    let offset = children[c].offset;
    let t = SemToken { span: leaf_span(leaf_at(field, i), offset), kind };
    let outer = header_marks(ScopeView::Unknown, block);
    let scope = block_scope(schema, block);
    let parent = match inner {
        None => block,
        Some(module) => module,
    };
    let around = match inner {
        None => scope,
        Some(module) => module_scope(schema, module),
    };
    let p = choose|p: int|
        0 <= p < parent.children.len() && #[trigger] parent.children[p] == ElementView::Node(field);
    let marks = header_marks(around, field);
    let below = inner_scope(schema, around, field);
    assert forall|acc: Seq<SemToken>, m: Seq<(int, SemKind)>| #[trigger]
        element_tokens(schema, ElementView::Node(field), offset, around, m, acc).contains(t) by {
        let own = tokens_in(schema, field.children.take(i), offset, below, marks, acc);
        let more = element_tokens(schema, field.children[i], offset, below, marks, own);
        assert(more[own.len() as int] == t);
        lemma_child_kept(schema, field.children, i, offset, below, marks, acc, t);
    }
    match inner {
        None => {
            lemma_block_token_kept(schema, children, c, block, p, t);
        },
        Some(module) => {
            let q = choose|q: int|
                0 <= q < block.children.len() && #[trigger] block.children[q] == ElementView::Node(
                    module,
                );
            let heads = header_marks(scope, module);
            assert(inner_scope(schema, scope, module) == around);
            assert forall|acc: Seq<SemToken>| #[trigger]
                element_tokens(schema, block.children[q], offset, scope, outer, acc).contains(
                    t,
                ) by {
                let own = tokens_in(schema, module.children.take(p), offset, around, heads, acc);
                assert(element_tokens(
                    schema,
                    ElementView::Node(field),
                    offset,
                    around,
                    heads,
                    own,
                ).contains(t));
                lemma_child_kept(schema, module.children, p, offset, around, heads, acc, t);
            }
            lemma_block_token_kept(schema, children, c, block, q, t);
        },
    }
}

// ---------------------------------------------------------------------------
// Marks
// ---------------------------------------------------------------------------
/// Tokens of one line start at different places.
pub proof fn lemma_places_differ(node: NodeView, i: int, j: int)
    requires
        tiled(node.children, node.start, node.end),
        on_line(node, i),
        on_line(node, j),
        i < j,
    ensures
        leaf_at(node, i).start < leaf_at(node, i).end <= leaf_at(node, j).start,
    decreases j - i,
{
    lemma_tiled_at(node.children, node.start, node.end, i);
    lemma_tiled_at(node.children, node.start, node.end, j);
    if i + 1 < j {
        assert(on_line(node, i + 1));
        lemma_places_differ(node, i + 1, j);
        lemma_tiled_at(node.children, node.start, node.end, i + 1);
    }
}

proof fn lemma_value_mark(
    head: Seq<(int, SemKind)>,
    values: Seq<LeafView>,
    ty: Option<ValueType>,
    p: int,
)
    requires
        0 <= p < values.len(),
        forall|q: int|
            0 <= q < values.len() && (#[trigger] values[q]).start == values[p].start ==> values[q]
                == values[p],
    ensures
        mark_at(marked_values(head, values, ty), values[p].start) == Some(
            value_kind(values[p], ty),
        ),
    decreases values.len(),
{
    let rest = values.drop_last();
    let all = marked_values(head, values, ty);
    assert(all.drop_last() =~= marked_values(head, rest, ty));
    assert(values.last() == values[values.len() - 1]);
    if values.last().start != values[p].start {
        assert(rest[p] == values[p]);
        assert forall|q: int|
            0 <= q < rest.len() && (#[trigger] rest[q]).start == rest[p].start implies rest[q]
            == rest[p] by {
            assert(values[q] == rest[q]);
        }
        lemma_value_mark(head, rest, ty, p);
    }
}

proof fn lemma_head_mark(
    head: Seq<(int, SemKind)>,
    values: Seq<LeafView>,
    ty: Option<ValueType>,
    at: int,
)
    requires
        forall|q: int| 0 <= q < values.len() ==> (#[trigger] values[q]).start != at,
    ensures
        mark_at(marked_values(head, values, ty), at) == mark_at(head, at),
    decreases values.len(),
{
    if values.len() > 0 {
        let rest = values.drop_last();
        let all = marked_values(head, values, ty);
        assert(all.drop_last() =~= marked_values(head, rest, ty));
        assert(values.last() == values[values.len() - 1]);
        assert forall|q: int| 0 <= q < rest.len() implies (#[trigger] rest[q]).start != at by {
            assert(values[q] == rest[q]);
        }
        lemma_head_mark(head, rest, ty, at);
    }
}

/// A line of a parsed text is laid out token by token, inside the text.
pub proof fn lemma_line_tiled<O: OpenerOracle>(
    oracle: O,
    text: Seq<char>,
    schema: Schema,
    c: int,
    block: NodeView,
    inner: Option<NodeView>,
    field: NodeView,
    ty: ValueType,
)
    requires
        line_has_type(schema, parse_text(oracle, text).children, c, block, inner, field, ty),
    ensures
        ({
            let offset = parse_text(oracle, text).children[c].offset;
            &&& tiled(field.children, field.start, field.end)
            &&& 0 <= offset
            &&& 0 <= field.start < field.end
            &&& offset + field.end <= blen(text)
        }),
{
    let children = parse_text(oracle, text).children;
    parse_tiles_the_text(oracle, text);
    lemma_document_at(children, blen(text) as int, c);
    match inner {
        None => {
            let i = choose|i: int|
                0 <= i < block.children.len() && #[trigger] block.children[i] == ElementView::Node(
                    field,
                );
            lemma_tiled_at(block.children, block.start, block.end, i);
        },
        Some(module) => {
            let i = choose|i: int|
                0 <= i < block.children.len() && #[trigger] block.children[i] == ElementView::Node(
                    module,
                );
            lemma_tiled_at(block.children, block.start, block.end, i);
            let j = choose|j: int|
                0 <= j < module.children.len() && #[trigger] module.children[j]
                    == ElementView::Node(field);
            lemma_tiled_at(module.children, module.start, module.end, j);
        },
    }
}

// ---------------------------------------------------------------------------
// Laws
// ---------------------------------------------------------------------------
/// Law: a value is shown by what its field is declared to hold. A quoted string is a
/// string; any other word, except `End`, is a reference where the field refers to a
/// definition, a number where it holds numbers, a member where it draws from a set,
/// and a string elsewhere.
pub proof fn values_are_shown_by_type<O: OpenerOracle>(
    oracle: O,
    text: Seq<char>,
    schema: Schema,
    c: int,
    block: NodeView,
    inner: Option<NodeView>,
    field: NodeView,
    ty: ValueType,
    i: int,
)
    requires
        blen(text) <= u32::MAX,
        line_has_type(schema, parse_text(oracle, text).children, c, block, inner, field, ty),
        value_at(field, i),
    ensures
        ({
            let children = parse_text(oracle, text).children;
            let tokens = tokens_of(schema, children, None);
            let offset = children[c].offset;
            let leaf = leaf_at(field, i);
            let plain = leaf.kind == SyntaxKind::WORD && !same_ignoring_case(leaf.text, "End"@);
            &&& leaf.kind == SyntaxKind::STRING ==> is_shown(
                tokens,
                offset,
                leaf,
                SemKind::StringLit,
            )
            &&& plain && ty is Reference ==> is_shown(tokens, offset, leaf, SemKind::Reference)
            &&& plain && is_numeric(ty) ==> is_shown(tokens, offset, leaf, SemKind::Number)
            &&& plain && is_choice(ty) ==> is_shown(tokens, offset, leaf, SemKind::EnumMember)
            &&& plain && !(ty is Reference) && !is_numeric(ty) && !is_choice(ty) ==> is_shown(
                tokens,
                offset,
                leaf,
                SemKind::StringLit,
            )
        }),
{
    let children = parse_text(oracle, text).children;
    let tokens = tokens_of(schema, children, None);
    let offset = children[c].offset;
    let leaf = leaf_at(field, i);
    lemma_line_tiled(oracle, text, schema, c, block, inner, field, ty);
    lemma_tiled_at(field.children, field.start, field.end, i);
    let p = values_hold_what_follows_the_key(field, i);
    let values = field.values();
    assert forall|q: int|
        0 <= q < values.len() && (#[trigger] values[q]).start == values[p].start implies values[q]
        == values[p] by {
        let j = values_follow_the_key(field, q);
        if j < i {
            lemma_places_differ(field, j, i);
        } else if i < j {
            lemma_places_differ(field, i, j);
        }
    }
    let head = marked(Seq::empty(), field.head_word(), SemKind::Field);
    lemma_value_mark(head, values, Some(ty), p);
    let marks = marked_values(head, values, Some(ty));
    if leaf.kind == SyntaxKind::STRING || !same_ignoring_case(leaf.text, "End"@) {
        let kind = value_kind(leaf, Some(ty));
        assert(leaf_kind(leaf, marks) == Some(kind));
        lemma_line_token_kept(schema, children, c, block, inner, field, ty, i, kind);
        let t = SemToken { span: leaf_span(leaf, offset), kind };
        let n = choose|n: int| 0 <= n < tokens.len() && tokens[n] == t;
        assert(tokens[n].span.start == offset + leaf.start && tokens[n].span.end == offset
            + leaf.end);
        assert(is_shown(tokens, offset, leaf, kind));
    }
}

/// Law: the key of a field is shown as one, and its `=` as an operator, a comment on
/// its line as a comment, and `End` anywhere on it as a keyword.
pub proof fn keys_are_shown_as_fields<O: OpenerOracle>(
    oracle: O,
    text: Seq<char>,
    schema: Schema,
    c: int,
    block: NodeView,
    inner: Option<NodeView>,
    field: NodeView,
    ty: ValueType,
    i: int,
)
    requires
        blen(text) <= u32::MAX,
        line_has_type(schema, parse_text(oracle, text).children, c, block, inner, field, ty),
        on_line(field, i),
    ensures
        ({
            let children = parse_text(oracle, text).children;
            let tokens = tokens_of(schema, children, None);
            let offset = children[c].offset;
            let leaf = leaf_at(field, i);
            let ends = leaf.kind == SyntaxKind::WORD && same_ignoring_case(leaf.text, "End"@);
            &&& key_at(field, i) && !ends ==> is_shown(tokens, offset, leaf, SemKind::Field)
            &&& ends ==> is_shown(tokens, offset, leaf, SemKind::Keyword)
            &&& leaf.kind == SyntaxKind::EQUALS ==> is_shown(
                tokens,
                offset,
                leaf,
                SemKind::Operator,
            )
            &&& leaf.kind == SyntaxKind::COMMENT ==> is_shown(
                tokens,
                offset,
                leaf,
                SemKind::Comment,
            )
        }),
{
    let children = parse_text(oracle, text).children;
    let tokens = tokens_of(schema, children, None);
    let offset = children[c].offset;
    let leaf = leaf_at(field, i);
    lemma_line_tiled(oracle, text, schema, c, block, inner, field, ty);
    lemma_tiled_at(field.children, field.start, field.end, i);
    let values = field.values();
    let head = marked(Seq::empty(), field.head_word(), SemKind::Field);
    let marks = marked_values(head, values, Some(ty));
    let ends = leaf.kind == SyntaxKind::WORD && same_ignoring_case(leaf.text, "End"@);
    if key_at(field, i) {
        head_word_is_the_key(field, i);
        assert forall|q: int| 0 <= q < values.len() implies (#[trigger] values[q]).start
            != leaf.start by {
            let j = values_follow_the_key(field, q);
            let k = choose|k: int| k < j && #[trigger] key_at(field, k);
            if k < i {
                assert(word_at(field, k));
            } else if i < k {
                assert(word_at(field, i));
            }
            lemma_places_differ(field, i, j);
        }
        lemma_head_mark(head, values, Some(ty), leaf.start);
        assert(head.last() == (leaf.start, SemKind::Field));
    }
    let kind = if leaf.kind == SyntaxKind::COMMENT {
        SemKind::Comment
    } else if leaf.kind == SyntaxKind::EQUALS {
        SemKind::Operator
    } else if ends {
        SemKind::Keyword
    } else {
        SemKind::Field
    };
    if leaf.kind == SyntaxKind::COMMENT || leaf.kind == SyntaxKind::EQUALS || ends || key_at(
        field,
        i,
    ) {
        assert(leaf_kind(leaf, marks) == Some(kind));
        lemma_line_token_kept(schema, children, c, block, inner, field, ty, i, kind);
        let t = SemToken { span: leaf_span(leaf, offset), kind };
        let n = choose|n: int| 0 <= n < tokens.len() && tokens[n] == t;
        assert(tokens[n].span.start == offset + leaf.start && tokens[n].span.end == offset
            + leaf.end);
    }
}

/// Law: on the first line of a top-level block, known or not, the keyword is shown as
/// a keyword and the name as a name.
pub proof fn block_headers_are_shown<O: OpenerOracle>(
    oracle: O,
    text: Seq<char>,
    schema: Schema,
    c: int,
    block: NodeView,
    i: int,
)
    requires
        blen(text) <= u32::MAX,
        0 <= c < parse_text(oracle, text).children.len(),
        parse_text(oracle, text).children[c].element == ElementView::Node(block),
        block.kind == SyntaxKind::BLOCK,
        key_at(block, i) || name_at(block, i),
    ensures
        ({
            let children = parse_text(oracle, text).children;
            let tokens = tokens_of(schema, children, None);
            let offset = children[c].offset;
            let leaf = leaf_at(block, i);
            let ends = same_ignoring_case(leaf.text, "End"@);
            &&& key_at(block, i) ==> is_shown(tokens, offset, leaf, SemKind::Keyword)
            &&& name_at(block, i) && !ends ==> is_shown(tokens, offset, leaf, SemKind::BlockName)
        }),
{
    let children = parse_text(oracle, text).children;
    let tokens = tokens_of(schema, children, None);
    let offset = children[c].offset;
    let leaf = leaf_at(block, i);
    parse_tiles_the_text(oracle, text);
    lemma_document_at(children, blen(text) as int, c);
    lemma_tiled_at(block.children, block.start, block.end, i);
    let none = Seq::<(int, SemKind)>::empty();
    let head = marked(none, block.head_word(), SemKind::Keyword);
    let marks = header_marks(ScopeView::Unknown, block);
    let ends = same_ignoring_case(leaf.text, "End"@);
    let kind = if key_at(block, i) || ends {
        SemKind::Keyword
    } else {
        SemKind::BlockName
    };
    if key_at(block, i) {
        head_word_is_the_key(block, i);
        assert(head.last() == (leaf.start, SemKind::Keyword));
        if block.second_word() is Some {
            let n = crate::lines::second_word_has_a_place(block);
            let k = choose|k: int|
                #![trigger key_at(block, k)]
                k < n && key_at(block, k) && forall|j: int|
                    k < j < n ==> !#[trigger] word_at(block, j);
            if k < i {
                assert(word_at(block, k));
            } else if i < k {
                assert(word_at(block, i));
            }
            lemma_places_differ(block, i, n);
            assert(marks.drop_last() =~= head);
        } else {
            assert(marks == head);
        }
    } else {
        second_word_is_the_name(block, i);
        assert(marks.last() == (leaf.start, SemKind::BlockName));
    }
    assert(leaf_kind(leaf, marks) == Some(kind));
    let t = SemToken { span: leaf_span(leaf, offset), kind };
    assert forall|acc: Seq<SemToken>| #[trigger]
        element_tokens(
            schema,
            block.children[i],
            offset,
            block_scope(schema, block),
            marks,
            acc,
        ).contains(t) by {
        let more = element_tokens(
            schema,
            block.children[i],
            offset,
            block_scope(schema, block),
            marks,
            acc,
        );
        assert(more[acc.len() as int] == t);
    }
    lemma_block_token_kept(schema, children, c, block, i, t);
    let n = choose|n: int| 0 <= n < tokens.len() && tokens[n] == t;
    assert(tokens[n].span.start == offset + leaf.start && tokens[n].span.end == offset + leaf.end);
}

/// Law: on the first line of a module that fills a slot of its block, the slot is
/// shown as a keyword and the module's name as a module.
pub proof fn module_headers_are_shown<O: OpenerOracle>(
    oracle: O,
    text: Seq<char>,
    schema: Schema,
    c: int,
    block: NodeView,
    b: int,
    module: NodeView,
    i: int,
)
    requires
        blen(text) <= u32::MAX,
        0 <= c < parse_text(oracle, text).children.len(),
        parse_text(oracle, text).children[c].element == ElementView::Node(block),
        block.kind == SyntaxKind::BLOCK,
        block_type_is(schema, block, b),
        holds_node(block, module),
        module.kind == SyntaxKind::MODULE,
        in_slot(schema, b, module),
        argument_at(module, i),
        !same_ignoring_case(leaf_at(module, i).text, "End"@),
    ensures
        is_shown(
            tokens_of(schema, parse_text(oracle, text).children, None),
            parse_text(oracle, text).children[c].offset,
            leaf_at(module, i),
            SemKind::Module,
        ),
{
    let children = parse_text(oracle, text).children;
    let tokens = tokens_of(schema, children, None);
    let offset = children[c].offset;
    let leaf = leaf_at(module, i);
    let scope = block_scope(schema, block);
    parse_tiles_the_text(oracle, text);
    lemma_document_at(children, blen(text) as int, c);
    let q = choose|q: int|
        0 <= q < block.children.len() && #[trigger] block.children[q] == ElementView::Node(module);
    lemma_tiled_at(block.children, block.start, block.end, q);
    lemma_tiled_at(module.children, module.start, module.end, i);
    lemma_block_type(schema, block, b);
    lemma_in_slot(schema, b, module);
    argument_follows_the_equals(module, i);
    let marks = header_marks(scope, module);
    let outer = header_marks(ScopeView::Unknown, block);
    let below = inner_scope(schema, scope, module);
    assert(marks.last() == (leaf.start, SemKind::Module));
    assert(leaf_kind(leaf, marks) == Some(SemKind::Module));
    let t = SemToken { span: leaf_span(leaf, offset), kind: SemKind::Module };
    assert forall|acc: Seq<SemToken>| #[trigger]
        element_tokens(schema, block.children[q], offset, scope, outer, acc).contains(t) by {
        let own = tokens_in(schema, module.children.take(i), offset, below, marks, acc);
        let more = element_tokens(schema, module.children[i], offset, below, marks, own);
        assert(more[own.len() as int] == t);
        lemma_child_kept(schema, module.children, i, offset, below, marks, acc, t);
    }
    lemma_block_token_kept(schema, children, c, block, q, t);
    let n = choose|n: int| 0 <= n < tokens.len() && tokens[n] == t;
    assert(tokens[n].span.start == offset + leaf.start && tokens[n].span.end == offset + leaf.end);
}

// ---------------------------------------------------------------------------
// Where kinds come from
// ---------------------------------------------------------------------------
/// A field line somewhere in an element.
pub open spec fn has_line(e: ElementView, field: NodeView) -> bool
    decreases e,
{
    match e {
        ElementView::Token(_) => false,
        ElementView::Node(node) => node == field || lines_in(node.children, field),
    }
}

/// A field line somewhere in a list of elements.
pub open spec fn lines_in(elements: Seq<ElementView>, field: NodeView) -> bool
    decreases elements,
{
    elements.len() > 0 && (lines_in(elements.drop_last(), field) || has_line(
        elements.last(),
        field,
    ))
}

/// Some block or module of the schema declares a type for a field line.
pub open spec fn declared_somewhere(schema: Schema, field: NodeView, ty: ValueType) -> bool {
    ||| exists|b: int|
        0 <= b < schema.blocks@.len() && declared(
            (#[trigger] schema.blocks@[b]).fields@,
            field,
            ty,
        )
    ||| exists|m: int|
        0 <= m < schema.modules@.len() && declared(
            (#[trigger] schema.modules@[m]).fields@,
            field,
            ty,
        )
}

/// Whether a type gives values of a kind.
pub open spec fn gives(ty: ValueType, kind: SemKind) -> bool {
    &&& kind == SemKind::Number ==> is_numeric(ty)
    &&& kind == SemKind::Reference ==> ty is Reference
}

/// A shown token stands for a value of a line whose type gives its kind.
pub open spec fn comes_from(
    schema: Schema,
    e: ElementView,
    offset: int,
    t: SemToken,
) -> bool {
    exists|field: NodeView, i: int, ty: ValueType|
        {
            &&& #[trigger] has_line(e, field)
            &&& field.kind == SyntaxKind::FIELD
            &&& #[trigger] value_at(field, i)
            &&& #[trigger] declared_somewhere(schema, field, ty)
            &&& gives(ty, t.kind)
            &&& t.span.start == span_at(
                offset as u32,
                leaf_at(field, i).start as u32,
                leaf_at(field, i).start as u32,
            ).start
        }
}

spec fn known_scope(schema: Schema, scope: ScopeView) -> bool {
    match scope {
        ScopeView::Block(block) => exists|b: int|
            0 <= b < schema.blocks@.len() && #[trigger] schema.blocks@[b] == block,
        ScopeView::Module(module) => exists|m: int|
            0 <= m < schema.modules@.len() && #[trigger] schema.modules@[m] == module,
        ScopeView::SubBlock(_) => false,
        ScopeView::Unknown => true,
    }
}

proof fn lemma_block_entry(blocks: Seq<BlockType>, name: Seq<char>)
    requires
        block_named(blocks, name) is Some,
    ensures
        exists|b: int|
            0 <= b < blocks.len() && #[trigger] blocks[b] == block_named(blocks, name)->0,
    decreases blocks.len(),
{
    let rest = blocks.drop_last();
    if blocks.last().name@ == name {
        assert(blocks[blocks.len() - 1] == block_named(blocks, name)->0);
    } else {
        lemma_block_entry(rest, name);
        let b = choose|b: int|
            0 <= b < rest.len() && #[trigger] rest[b] == block_named(rest, name)->0;
        assert(blocks[b] == rest[b]);
    }
}

proof fn lemma_module_entry(modules: Seq<ModuleType>, name: Seq<char>)
    requires
        module_named(modules, name) is Some,
    ensures
        exists|m: int|
            0 <= m < modules.len() && #[trigger] modules[m] == module_named(modules, name)->0,
    decreases modules.len(),
{
    let rest = modules.drop_last();
    if modules.last().name@ == name {
        assert(modules[modules.len() - 1] == module_named(modules, name)->0);
    } else {
        lemma_module_entry(rest, name);
        let m = choose|m: int|
            0 <= m < rest.len() && #[trigger] rest[m] == module_named(rest, name)->0;
        assert(modules[m] == rest[m]);
    }
}

proof fn lemma_field_entry(fields: Seq<Field>, name: Seq<char>) -> (f: int)
    requires
        field_named(fields, name) is Some,
    ensures
        counts_field(fields, f),
        fields[f] == field_named(fields, name)->0,
        fields[f].name@ == name,
    decreases fields.len(),
{
    if fields[0].name@ == name {
        0
    } else {
        let rest = fields.drop_first();
        let f = lemma_field_entry(rest, name);
        assert(fields[f + 1] == rest[f]);
        assert forall|c: int| 0 <= c < f + 1 implies (#[trigger] fields[c]).name@ != fields[f
            + 1].name@ by {
            if c > 0 {
                assert(rest[c - 1] == fields[c]);
            }
        }
        f + 1
    }
}

proof fn lemma_inner_known(schema: Schema, scope: ScopeView, node: NodeView)
    ensures
        known_scope(schema, inner_scope(schema, scope, node)),
{
    if node.kind == SyntaxKind::BLOCK {
        if let Some(keyword) = node.head_word() {
            if block_named(schema.blocks@, keyword.text) is Some {
                lemma_block_entry(schema.blocks@, keyword.text);
            }
        }
    } else if node.kind == SyntaxKind::MODULE && fills_slot(scope, node) {
        if let Some(name) = node.after_equals(0) {
            if module_named(schema.modules@, name.text) is Some {
                lemma_module_entry(schema.modules@, name.text);
            }
        }
    }
}

proof fn lemma_mark_origin(
    head: Seq<(int, SemKind)>,
    values: Seq<LeafView>,
    ty: Option<ValueType>,
    at: int,
) -> (p: int)
    requires
        mark_at(marked_values(head, values, ty), at) is Some,
    ensures
        p == -1 ==> mark_at(marked_values(head, values, ty), at) == mark_at(head, at),
        p != -1 ==> 0 <= p < values.len() && values[p].start == at && mark_at(
            marked_values(head, values, ty),
            at,
        ) == Some(value_kind(values[p], ty)),
    decreases values.len(),
{
    if values.len() == 0 {
        -1
    } else {
        let rest = values.drop_last();
        let all = marked_values(head, values, ty);
        assert(all.drop_last() =~= marked_values(head, rest, ty));
        if values.last().start == at {
            values.len() - 1
        } else {
            lemma_mark_origin(head, rest, ty, at)
        }
    }
}

/// A mark of a value kind is made by a line whose type gives it.
proof fn lemma_header_origin(
    schema: Schema,
    scope: ScopeView,
    node: NodeView,
    leaf: LeafView,
    kind: SemKind,
)
    requires
        known_scope(schema, scope),
        kind == SemKind::Number || kind == SemKind::Reference,
        leaf_kind(leaf, header_marks(scope, node)) == Some(kind),
    ensures
        node.kind == SyntaxKind::FIELD,
        exists|i: int, ty: ValueType|
            #[trigger] value_at(node, i) && #[trigger] declared_somewhere(schema, node, ty)
                && gives(ty, kind) && leaf_at(node, i).start == leaf.start,
{
    let marks = header_marks(scope, node);
    let none = Seq::<(int, SemKind)>::empty();
    let at = leaf.start;
    assert(mark_at(marks, at) == Some(kind));
    if node.kind == SyntaxKind::BLOCK {
        let head = marked(none, node.head_word(), SemKind::Keyword);
        reveal_with_fuel(mark_at, 4);
        if head.len() > 0 {
            assert(head.drop_last() =~= none);
        }
        if marks.len() > head.len() {
            assert(marks.drop_last() =~= head);
        }
    } else if node.kind == SyntaxKind::MODULE {
        let head = marked(none, node.head_word(), SemKind::Keyword);
        reveal_with_fuel(mark_at, 4);
        if head.len() > 0 {
            assert(head.drop_last() =~= none);
        }
        if marks.len() > head.len() {
            assert(marks.drop_last() =~= head);
        }
    } else if node.kind == SyntaxKind::FIELD {
        let head = marked(none, node.head_word(), SemKind::Field);
        let ty = field_type(scope, node);
        let p = lemma_mark_origin(head, node.values(), ty, at);
        if p == -1 {
            reveal_with_fuel(mark_at, 4);
            if head.len() > 0 {
                assert(head.drop_last() =~= none);
            }
        } else {
            let i = values_follow_the_key(node, p);
            assert(value_kind(node.values()[p], ty) == kind);
            let key = node.head_word()->0;
            let k = head_word_has_a_place(node);
            let f = lemma_field_entry(scope.fields(), key.text);
            assert(key_is(node, scope.fields()[f].name@));
            assert(declared(scope.fields(), node, ty->0));
            assert(declared_somewhere(schema, node, ty->0)) by {
                match scope {
                    ScopeView::Block(block) => {
                        let b = choose|b: int|
                            0 <= b < schema.blocks@.len() && #[trigger] schema.blocks@[b] == block;
                        assert(declared(schema.blocks@[b].fields@, node, ty->0));
                    },
                    ScopeView::Module(module) => {
                        let m = choose|m: int|
                            0 <= m < schema.modules@.len() && #[trigger] schema.modules@[m]
                                == module;
                        assert(declared(schema.modules@[m].fields@, node, ty->0));
                    },
                    _ => {},
                }
            }
            assert(gives(ty->0, kind));
        }
    }
}

proof fn lemma_origin(
    schema: Schema,
    e: ElementView,
    offset: int,
    scope: ScopeView,
    node: NodeView,
    outer: ScopeView,
    acc: Seq<SemToken>,
    t: SemToken,
)
    requires
        known_scope(schema, scope),
        known_scope(schema, outer),
        t.kind == SemKind::Number || t.kind == SemKind::Reference,
        element_tokens(schema, e, offset, scope, header_marks(outer, node), acc).contains(t),
        !acc.contains(t),
    ensures
        comes_from(schema, e, offset, t) || comes_from(
            schema,
            ElementView::Node(node),
            offset,
            t,
        ),
    decreases e,
{
    let marks = header_marks(outer, node);
    let all = element_tokens(schema, e, offset, scope, marks, acc);
    match e {
        ElementView::Token(leaf) => {
            let n = choose|n: int| 0 <= n < all.len() && all[n] == t;
            if n < acc.len() {
                assert(acc[n] == t);
            }
            lemma_header_origin(schema, outer, node, leaf, t.kind);
            let (i, ty) = choose|i: int, ty: ValueType|
                #[trigger] value_at(node, i) && #[trigger] declared_somewhere(schema, node, ty)
                    && gives(ty, t.kind) && leaf_at(node, i).start == leaf.start;
            assert(has_line(ElementView::Node(node), node));
            assert(t.span == leaf_span(leaf, offset));
        },
        ElementView::Node(inside) => {
            lemma_inner_known(schema, scope, inside);
            lemma_origin_in(
                schema,
                inside.children,
                offset,
                inner_scope(schema, scope, inside),
                inside,
                scope,
                acc,
                t,
            );
            if lines_from(schema, inside.children, offset, t) {
                let (field, i, ty) = choose|field: NodeView, i: int, ty: ValueType|
                    {
                        &&& #[trigger] lines_in(inside.children, field)
                        &&& field.kind == SyntaxKind::FIELD
                        &&& #[trigger] value_at(field, i)
                        &&& #[trigger] declared_somewhere(schema, field, ty)
                        &&& gives(ty, t.kind)
                        &&& t.span.start == span_at(
                            offset as u32,
                            leaf_at(field, i).start as u32,
                            leaf_at(field, i).start as u32,
                        ).start
                    };
                assert(has_line(e, field));
            }
        },
    }
}

spec fn lines_from(
    schema: Schema,
    elements: Seq<ElementView>,
    offset: int,
    t: SemToken,
) -> bool {
    exists|field: NodeView, i: int, ty: ValueType|
        {
            &&& #[trigger] lines_in(elements, field)
            &&& field.kind == SyntaxKind::FIELD
            &&& #[trigger] value_at(field, i)
            &&& #[trigger] declared_somewhere(schema, field, ty)
            &&& gives(ty, t.kind)
            &&& t.span.start == span_at(
                offset as u32,
                leaf_at(field, i).start as u32,
                leaf_at(field, i).start as u32,
            ).start
        }
}

proof fn lemma_origin_in(
    schema: Schema,
    elements: Seq<ElementView>,
    offset: int,
    scope: ScopeView,
    node: NodeView,
    outer: ScopeView,
    acc: Seq<SemToken>,
    t: SemToken,
)
    requires
        known_scope(schema, scope),
        known_scope(schema, outer),
        t.kind == SemKind::Number || t.kind == SemKind::Reference,
        tokens_in(schema, elements, offset, scope, header_marks(outer, node), acc).contains(t),
        !acc.contains(t),
    ensures
        lines_from(schema, elements, offset, t) || comes_from(
            schema,
            ElementView::Node(node),
            offset,
            t,
        ),
    decreases elements,
{
    if elements.len() > 0 {
        let marks = header_marks(outer, node);
        let rest = elements.drop_last();
        let before = tokens_in(schema, rest, offset, scope, marks, acc);
        if before.contains(t) {
            lemma_origin_in(schema, rest, offset, scope, node, outer, acc, t);
            if lines_from(schema, rest, offset, t) {
                let (field, i, ty) = choose|field: NodeView, i: int, ty: ValueType|
                    {
                        &&& #[trigger] lines_in(rest, field)
                        &&& field.kind == SyntaxKind::FIELD
                        &&& #[trigger] value_at(field, i)
                        &&& #[trigger] declared_somewhere(schema, field, ty)
                        &&& gives(ty, t.kind)
                        &&& t.span.start == span_at(
                            offset as u32,
                            leaf_at(field, i).start as u32,
                            leaf_at(field, i).start as u32,
                        ).start
                    };
                assert(lines_in(elements, field));
            }
        } else {
            let last = elements.last();
            lemma_origin(schema, last, offset, scope, node, outer, before, t);
            if comes_from(schema, last, offset, t) {
                let (field, i, ty) = choose|field: NodeView, i: int, ty: ValueType|
                    {
                        &&& #[trigger] has_line(last, field)
                        &&& field.kind == SyntaxKind::FIELD
                        &&& #[trigger] value_at(field, i)
                        &&& #[trigger] declared_somewhere(schema, field, ty)
                        &&& gives(ty, t.kind)
                        &&& t.span.start == span_at(
                            offset as u32,
                            leaf_at(field, i).start as u32,
                            leaf_at(field, i).start as u32,
                        ).start
                    };
                assert(lines_in(elements, field));
            }
        }
    }
}

/// Law: a number or a reference is shown only at a value of a field that some block
/// or module declares to hold one.
pub proof fn numbers_and_references_are_declared(
    schema: Schema,
    children: Seq<ChildView>,
    range: Option<Span>,
    t: SemToken,
) -> (c: int)
    requires
        tokens_of(schema, children, range).contains(t),
        t.kind == SemKind::Number || t.kind == SemKind::Reference,
    ensures
        0 <= c < children.len(),
        comes_from(schema, children[c].element, children[c].offset, t),
    decreases children.len(),
{
    let rest = children.drop_last();
    let before = tokens_of(schema, rest, range);
    if before.contains(t) {
        let c = numbers_and_references_are_declared(schema, rest, range, t);
        assert(rest[c] == children[c]);
        c
    } else {
        let last = children.last();
        let bare = NodeView { kind: SyntaxKind::ROOT, start: 0, end: 0, children: Seq::empty() };
        assert(header_marks(ScopeView::Unknown, bare) =~= Seq::<(int, SemKind)>::empty());
        lemma_origin(
            schema,
            last.element,
            last.offset,
            ScopeView::Unknown,
            bare,
            ScopeView::Unknown,
            before,
            t,
        );
        if comes_from(schema, ElementView::Node(bare), last.offset, t) {
            let field = choose|field: NodeView|
                #[trigger] has_line(ElementView::Node(bare), field) && field.kind
                    == SyntaxKind::FIELD;
            assert(!lines_in(bare.children, field));
            assert(false);
        }
        children.len() - 1
    }
}

} // verus!
