//! Laws of navigation: which definition a place of a document refers to, and which
//! places refer to a definition.

use vstd::prelude::*;
use vstd::string::*;

use crate::analyzer::Span;
use crate::facts::{sites_in, sites_of, RecordView};
use crate::index::{definition_of, definitions_of, DefinitionView, LocationView};
use crate::kind::SyntaxKind;
use crate::layout::{
    document_tiled, extent, lemma_document_at, lemma_tiled_at, parse_tiles_the_text, tiled,
};
use crate::lines::{
    around, block_type_is, counts_block, head_word_is_the_key, key_at, key_is, leaf_at,
    lemma_block_type, lemma_line_type, line_has_type, name_at, on_line, second_word_is_the_name,
    value_at, value_places, values_come_in_order, word_at,
};
use crate::model::{block_scope, module_scope, path_scope, scope_of, ScopeView};
use crate::nav::{
    input_type, inputs, listed_type, path_definition, path_hover, path_reference, place_in,
    token_reference, HoverView, ReferenceView,
};
use crate::outline::leaf_span;
use crate::parser::{parse_text, ChildView, OpenerOracle};
use crate::position::{element_path, path_of, pick, pick_child, Bias, PathView};
use crate::schema::{block_named, RefKind, Schema, ValueType};
use crate::semantic::field_type;
use crate::semantic_laws::{lemma_line_tiled, lemma_places_differ};
use crate::sites::{document_references, element_references, references_of, value_references};
use crate::symbols::path_symbol;
use crate::text::{
    blen, lemma_blen_one, lemma_clen, lemma_encode_concat, lower, quotes_trimmed,
    same_ignoring_case, without_leading_quotes, without_trailing_quotes,
};
use crate::tree::{ElementView, LeafView, NodeView};
use crate::workspace_laws::lemma_find;

verus! {

/// What a token says without its quotes: the token, where it holds none, and what is
/// between them where it starts and ends with one.
pub open spec fn says(leaf: LeafView, name: Seq<char>) -> bool {
    !name.contains('"') && (leaf.text == name || leaf.text == seq!['"'] + name + seq!['"'])
}

/// A span is the place of a token.
pub open spec fn covers(span: Span, offset: int, leaf: LeafView) -> bool {
    span.start == offset + leaf.start && span.end == offset + leaf.end
}

/// Law: taking the quotes off a text leaves what they enclose.
pub proof fn quotes_enclose_what_is_said(leaf: LeafView, name: Seq<char>)
    requires
        says(leaf, name),
    ensures
        quotes_trimmed(leaf.text) == name,
{
    let t = leaf.text;
    reveal_with_fuel(without_leading_quotes, 4);
    reveal_with_fuel(without_trailing_quotes, 4);
    if name.len() > 0 {
        assert(name.contains(name[0]));
        assert(name.contains(name[name.len() - 1]));
    }
    if t == name {
        assert(without_leading_quotes(t) == t);
    } else {
        let inner = name + seq!['"'];
        assert(t.drop_first() =~= inner);
        if name.len() > 0 {
            assert(inner[0] == name[0]);
            assert(without_leading_quotes(t) == inner);
            assert(inner.drop_last() =~= name);
            assert(without_trailing_quotes(name) == name);
        } else {
            assert(inner.drop_first() =~= Seq::<char>::empty());
            assert(without_leading_quotes(t) =~= Seq::<char>::empty());
            assert(name =~= Seq::<char>::empty());
        }
    }
}

// ---------------------------------------------------------------------------
// Finding the line under the cursor
// ---------------------------------------------------------------------------
proof fn lemma_pick(elements: Seq<ElementView>, start: int, end: int, at: int, i: int, j: int)
    requires
        tiled(elements, start, end),
        0 <= j <= i < elements.len(),
        extent(elements[i]).0 <= at < extent(elements[i]).1,
    ensures
        pick(elements, at, Bias::Right, j) == i,
    decreases i - j,
{
    if j < i {
        lemma_chain(elements, start, end, j, i);
        lemma_pick(elements, start, end, at, i, j + 1);
    }
}

pub proof fn lemma_chain(elements: Seq<ElementView>, start: int, end: int, j: int, i: int)
    requires
        tiled(elements, start, end),
        0 <= j < i < elements.len(),
    ensures
        extent(elements[j]).1 <= extent(elements[i]).0,
    decreases i - j,
{
    lemma_tiled_at(elements, start, end, i);
    lemma_tiled_at(elements, start, end, j);
    if j + 1 < i {
        lemma_tiled_at(elements, start, end, i - 1);
        lemma_chain(elements, start, end, j, i - 1);
    }
}

proof fn lemma_pick_child(children: Seq<ChildView>, end: int, at: int, i: int, j: int)
    requires
        document_tiled(children, end),
        0 <= j <= i < children.len(),
        children[i].offset <= at < children[i].offset + extent(children[i].element).1,
    ensures
        pick_child(children, at, Bias::Right, j) == i,
    decreases i - j,
{
    if j < i {
        lemma_document_chain(children, end, j, i);
        lemma_pick_child(children, end, at, i, j + 1);
    }
}

pub proof fn lemma_document_chain(children: Seq<ChildView>, end: int, j: int, i: int)
    requires
        document_tiled(children, end),
        0 <= j < i < children.len(),
    ensures
        children[j].offset + extent(children[j].element).1 <= children[i].offset,
    decreases i - j,
{
    lemma_document_at(children, end, i);
    lemma_document_at(children, end, j);
    if j + 1 < i {
        lemma_document_at(children, end, i - 1);
        lemma_document_chain(children, end, j, i - 1);
    }
}

proof fn lemma_in_child(
    parent: NodeView,
    i: int,
    at: int,
    acc: PathView,
)
    requires
        tiled(parent.children, parent.start, parent.end),
        0 <= i < parent.children.len(),
        extent(parent.children[i]).0 <= at < extent(parent.children[i]).1,
    ensures
        element_path(ElementView::Node(parent), at, Bias::Right, acc) == element_path(
            parent.children[i],
            at,
            Bias::Right,
            PathView { nodes: acc.nodes.push(parent), ..acc },
        ),
{
    lemma_pick(parent.children, parent.start, parent.end, at, i, 0);
}

/// Law: a cursor on a token of a line finds the line and the token.
pub proof fn cursor_finds_the_line<O: OpenerOracle>(
    oracle: O,
    text: Seq<char>,
    schema: Schema,
    c: int,
    block: NodeView,
    inner: Option<NodeView>,
    field: NodeView,
    ty: ValueType,
    i: int,
    cursor: int,
)
    requires
        line_has_type(schema, parse_text(oracle, text).children, c, block, inner, field, ty),
        on_line(field, i),
        parse_text(oracle, text).children[c].offset + leaf_at(field, i).start <= cursor
            < parse_text(oracle, text).children[c].offset + leaf_at(field, i).end,
    ensures
        path_of(
            parse_text(oracle, text).children,
            blen(text) as int,
            cursor,
            Bias::Right,
        ) == (PathView {
            offset: parse_text(oracle, text).children[c].offset,
            nodes: around(block, inner).push(field),
            token: Some(leaf_at(field, i)),
        }),
{
    let children = parse_text(oracle, text).children;
    let len = blen(text) as int;
    let offset = children[c].offset;
    let at = cursor - offset;
    parse_tiles_the_text(oracle, text);
    lemma_line_tiled(oracle, text, schema, c, block, inner, field, ty);
    lemma_document_at(children, len, c);
    lemma_tiled_at(field.children, field.start, field.end, i);
    let none = PathView { offset, nodes: Seq::empty(), token: None };
    match inner {
        None => {
            let p = choose|p: int|
                0 <= p < block.children.len() && #[trigger] block.children[p] == ElementView::Node(
                    field,
                );
            lemma_tiled_at(block.children, block.start, block.end, p);
            lemma_pick_child(children, len, cursor, c, 0);
            lemma_in_child(block, p, at, none);
            let one = PathView { nodes: none.nodes.push(block), ..none };
            lemma_in_child(field, i, at, one);
            assert(none.nodes.push(block).push(field) =~= around(block, inner).push(field));
        },
        Some(module) => {
            let p = choose|p: int|
                0 <= p < block.children.len() && #[trigger] block.children[p] == ElementView::Node(
                    module,
                );
            lemma_tiled_at(block.children, block.start, block.end, p);
            let q = choose|q: int|
                0 <= q < module.children.len() && #[trigger] module.children[q]
                    == ElementView::Node(field);
            lemma_tiled_at(module.children, module.start, module.end, q);
            lemma_pick_child(children, len, cursor, c, 0);
            lemma_in_child(block, p, at, none);
            let one = PathView { nodes: none.nodes.push(block), ..none };
            lemma_in_child(module, q, at, one);
            let two = PathView { nodes: one.nodes.push(module), ..one };
            lemma_in_child(field, i, at, two);
            assert(two.nodes.push(field) =~= around(block, inner).push(field));
        },
    }
}

/// The first place of a token among the values is its own.
proof fn lemma_place(field: NodeView, places: Seq<int>, p: int, j: int)
    requires
        tiled(field.children, field.start, field.end),
        value_places(field, places),
        0 <= j <= p < places.len(),
    ensures
        place_in(field.values(), leaf_at(field, places[p]), j) == p,
    decreases p - j,
{
    values_come_in_order(field, places);
    assert(field.values()[j] == leaf_at(field, places[j]));
    assert(field.values()[p] == leaf_at(field, places[p]));
    if j < p {
        assert(places[j] < places[p]);
        assert(value_at(field, places[j]) && value_at(field, places[p]));
        lemma_places_differ(field, places[j], places[p]);
        lemma_place(field, places, p, j + 1);
    }
}

/// A type without tagged values.
pub open spec fn is_untagged(ty: ValueType) -> bool {
    !(ty is Prefixed)
}

proof fn lemma_listed(specs: Seq<ValueType>, k: int, input: Seq<Seq<char>>, pos: int)
    requires
        0 <= k <= pos,
        forall|j: int| 0 <= j < specs.len() ==> is_untagged(#[trigger] specs[j]),
    ensures
        listed_type(specs, k, input, k, pos) == if pos < specs.len() {
            Some(specs[pos])
        } else {
            None
        },
    decreases pos - k,
{
    if k < specs.len() {
        assert(is_untagged(specs[k]));
        if k < pos {
            lemma_listed(specs, k + 1, input, pos);
        }
    }
}

/// What a value of a line refers to: the kind that is referred to by the type that
/// counts for the value. Every value of a list of references refers to a definition,
/// of a single reference the first one, and of a sequence of types those whose own
/// type is a reference.
pub open spec fn refers_to(ty: ValueType, p: int) -> Option<RefKind> {
    match ty {
        ValueType::ReferenceList { ref_kind } => Some(ref_kind),
        ValueType::Reference { ref_kind } if p == 0 => Some(ref_kind),
        ValueType::TokenList { tokens } if 0 <= p < tokens@.len() => match tokens@[p] {
            ValueType::Reference { ref_kind } => Some(ref_kind),
            ValueType::ReferenceList { ref_kind } => Some(ref_kind),
            _ => None,
        },
        _ => None,
    }
}

/// Types that the laws below speak of: no value is tagged by a prefix.
pub open spec fn has_no_tags(ty: ValueType) -> bool {
    &&& is_untagged(ty)
    &&& ty matches ValueType::TokenList { tokens } ==> forall|j: int|
        0 <= j < tokens@.len() ==> is_untagged(#[trigger] tokens@[j])
}

proof fn lemma_refers(ty: ValueType, input: Seq<Seq<char>>, p: int, leaf: LeafView, offset: int)
    requires
        has_no_tags(ty),
        0 <= p,
    ensures
        ({
            let made = match input_type(ty, input, p) {
                Some(element) => token_reference(element, leaf, offset),
                None => None,
            };
            match refers_to(ty, p) {
                Some(kind) => made == Some(
                    ReferenceView {
                        kind,
                        name: quotes_trimmed(leaf.text),
                        span: leaf_span(leaf, offset),
                    },
                ),
                None => made is None,
            }
        }),
{
    if let ValueType::TokenList { tokens } = ty {
        lemma_listed(tokens@, 0, input, p);
        if p < tokens@.len() {
            assert(is_untagged(tokens@[p]));
        }
    }
}

// ---------------------------------------------------------------------------
// Laws
// ---------------------------------------------------------------------------
/// Law: with the cursor anywhere on a value, the definition that is referred to is of
/// the kind that the schema declares for the value, and has the name that the value
/// spells, without quotes; it stands where the value stands. A value that is not
/// declared to refer to anything refers to nothing.
pub proof fn values_refer_as_declared<O: OpenerOracle>(
    oracle: O,
    text: Seq<char>,
    schema: Schema,
    c: int,
    block: NodeView,
    inner: Option<NodeView>,
    field: NodeView,
    ty: ValueType,
    places: Seq<int>,
    p: int,
    name: Seq<char>,
    cursor: int,
)
    requires
        blen(text) <= u32::MAX,
        line_has_type(schema, parse_text(oracle, text).children, c, block, inner, field, ty),
        has_no_tags(ty),
        value_places(field, places),
        0 <= p < places.len(),
        says(leaf_at(field, places[p]), name),
        parse_text(oracle, text).children[c].offset + leaf_at(field, places[p]).start <= cursor
            < parse_text(oracle, text).children[c].offset + leaf_at(field, places[p]).end,
    ensures
        ({
            let children = parse_text(oracle, text).children;
            let path = path_of(children, blen(text) as int, cursor, Bias::Right);
            match refers_to(ty, p) {
                Some(kind) => {
                    &&& path_reference(schema, path) matches Some(found)
                    &&& found.kind == kind
                    &&& found.name == name
                    &&& covers(found.span, children[c].offset, leaf_at(field, places[p]))
                    &&& path_symbol(schema, path) == Some(found)
                },
                None => path_reference(schema, path) is None,
            }
        }),
{
    let children = parse_text(oracle, text).children;
    let i = places[p];
    let leaf = leaf_at(field, i);
    let offset = children[c].offset;
    assert(value_at(field, i));
    cursor_finds_the_line(oracle, text, schema, c, block, inner, field, ty, i, cursor);
    lemma_line_tiled(oracle, text, schema, c, block, inner, field, ty);
    lemma_tiled_at(field.children, field.start, field.end, i);
    lemma_line_type(schema, children, c, block, inner, field, ty);
    values_come_in_order(field, places);
    lemma_place(field, places, p, 0);
    let path = path_of(children, blen(text) as int, cursor, Bias::Right);
    assert(path.nodes.drop_last() =~= around(block, inner));
    lemma_refers(ty, inputs(field.values()), p, leaf, offset);
    quotes_enclose_what_is_said(leaf, name);
}

proof fn lemma_references_kept(
    schema: Schema,
    e: ElementView,
    offset: int,
    scope: ScopeView,
    acc: Seq<ReferenceView>,
    r: ReferenceView,
)
    requires
        acc.contains(r),
    ensures
        element_references(schema, e, offset, scope, acc).contains(r),
    decreases e,
{
    if let ElementView::Node(node) = e {
        if node.kind == SyntaxKind::FIELD {
            if let Some(ty) = field_type(scope, node) {
                lemma_values_kept(ty, node.values(), offset, node.values().len() as int, acc, r);
            }
        } else if node.kind == SyntaxKind::BLOCK || node.kind == SyntaxKind::MODULE {
            lemma_references_kept_in(
                schema,
                node.children,
                offset,
                scope_of(schema, scope, node),
                acc,
                r,
            );
        }
    }
}

proof fn lemma_references_kept_in(
    schema: Schema,
    elements: Seq<ElementView>,
    offset: int,
    scope: ScopeView,
    acc: Seq<ReferenceView>,
    r: ReferenceView,
)
    requires
        acc.contains(r),
    ensures
        references_of(schema, elements, offset, scope, acc).contains(r),
    decreases elements,
{
    if elements.len() > 0 {
        lemma_references_kept_in(schema, elements.drop_last(), offset, scope, acc, r);
        lemma_references_kept(
            schema,
            elements.last(),
            offset,
            scope,
            references_of(schema, elements.drop_last(), offset, scope, acc),
            r,
        );
    }
}

proof fn lemma_values_kept(
    ty: ValueType,
    values: Seq<LeafView>,
    offset: int,
    n: int,
    acc: Seq<ReferenceView>,
    r: ReferenceView,
)
    requires
        acc.contains(r),
    ensures
        value_references(ty, values, offset, n, acc).contains(r),
    decreases n,
{
    if n > 0 {
        lemma_values_kept(ty, values, offset, n - 1, acc, r);
        let rest = value_references(ty, values, offset, n - 1, acc);
        let i = choose|i: int| 0 <= i < rest.len() && rest[i] == r;
        assert(value_references(ty, values, offset, n, acc)[i] == r);
    }
}

proof fn lemma_value_listed(
    ty: ValueType,
    values: Seq<LeafView>,
    offset: int,
    n: int,
    acc: Seq<ReferenceView>,
    p: int,
    r: ReferenceView,
)
    requires
        0 <= p < n,
        input_type(ty, inputs(values), p) is Some,
        token_reference(input_type(ty, inputs(values), p)->0, values[p], offset) == Some(r),
    ensures
        value_references(ty, values, offset, n, acc).contains(r),
    decreases n,
{
    let rest = value_references(ty, values, offset, n - 1, acc);
    let all = value_references(ty, values, offset, n, acc);
    if p < n - 1 {
        lemma_value_listed(ty, values, offset, n - 1, acc, p, r);
        let i = choose|i: int| 0 <= i < rest.len() && rest[i] == r;
        assert(all[i] == r);
    } else {
        assert(all[rest.len() as int] == r);
    }
}

proof fn lemma_child_references(
    schema: Schema,
    elements: Seq<ElementView>,
    i: int,
    offset: int,
    scope: ScopeView,
    acc: Seq<ReferenceView>,
    r: ReferenceView,
)
    requires
        0 <= i < elements.len(),
        forall|own: Seq<ReferenceView>| #[trigger]
            element_references(schema, elements[i], offset, scope, own).contains(r),
    ensures
        references_of(schema, elements, offset, scope, acc).contains(r),
    decreases elements.len(),
{
    let rest = elements.drop_last();
    let before = references_of(schema, rest, offset, scope, acc);
    if i < elements.len() - 1 {
        assert(rest[i] == elements[i]);
        lemma_child_references(schema, rest, i, offset, scope, acc, r);
        lemma_references_kept(schema, elements.last(), offset, scope, before, r);
    } else {
        assert(element_references(schema, elements[i], offset, scope, before).contains(r));
    }
}

proof fn lemma_element_listed(
    schema: Schema,
    children: Seq<ChildView>,
    c: int,
    r: ReferenceView,
)
    requires
        0 <= c < children.len(),
        forall|own: Seq<ReferenceView>| #[trigger]
            element_references(
                schema,
                children[c].element,
                children[c].offset,
                ScopeView::Unknown,
                own,
            ).contains(r),
    ensures
        document_references(schema, children).contains(r),
    decreases children.len(),
{
    let rest = children.drop_last();
    let last = children.last();
    let before = document_references(schema, rest);
    if c < children.len() - 1 {
        assert(rest[c] == children[c]);
        lemma_element_listed(schema, rest, c, r);
        lemma_references_kept(schema, last.element, last.offset, ScopeView::Unknown, before, r);
    } else {
        assert(element_references(
            schema,
            last.element,
            last.offset,
            ScopeView::Unknown,
            before,
        ).contains(r));
    }
}

/// Law: the references of a document hold one for each value that is declared to
/// refer to a definition, of the declared kind, with the name that the value spells,
/// where the value stands.
pub proof fn documents_list_their_references<O: OpenerOracle>(
    oracle: O,
    text: Seq<char>,
    schema: Schema,
    c: int,
    block: NodeView,
    inner: Option<NodeView>,
    field: NodeView,
    ty: ValueType,
    places: Seq<int>,
    p: int,
    name: Seq<char>,
)
    requires
        blen(text) <= u32::MAX,
        line_has_type(schema, parse_text(oracle, text).children, c, block, inner, field, ty),
        has_no_tags(ty),
        value_places(field, places),
        0 <= p < places.len(),
        says(leaf_at(field, places[p]), name),
        refers_to(ty, p) is Some,
    ensures
        ({
            let children = parse_text(oracle, text).children;
            let all = document_references(schema, children);
            exists|i: int|
                {
                    &&& 0 <= i < all.len()
                    &&& (#[trigger] all[i]).kind == refers_to(ty, p)->0
                    &&& all[i].name == name
                    &&& covers(all[i].span, children[c].offset, leaf_at(field, places[p]))
                }
        }),
{
    let children = parse_text(oracle, text).children;
    let leaf = leaf_at(field, places[p]);
    let offset = children[c].offset;
    assert(value_at(field, places[p]));
    lemma_line_tiled(oracle, text, schema, c, block, inner, field, ty);
    lemma_tiled_at(field.children, field.start, field.end, places[p]);
    lemma_line_type(schema, children, c, block, inner, field, ty);
    values_come_in_order(field, places);
    let values = field.values();
    assert(values[p] == leaf);
    lemma_refers(ty, inputs(values), p, leaf, offset);
    quotes_enclose_what_is_said(leaf, name);
    let r = ReferenceView { kind: refers_to(ty, p)->0, name, span: leaf_span(leaf, offset) };
    let scope = block_scope(schema, block);
    let parent = match inner {
        None => block,
        Some(module) => module,
    };
    let at = match inner {
        None => scope,
        Some(module) => module_scope(schema, module),
    };
    let n = values.len() as int;
    assert forall|own: Seq<ReferenceView>| #[trigger]
        element_references(schema, ElementView::Node(field), offset, at, own).contains(r) by {
        lemma_value_listed(ty, values, offset, n, own, p, r);
    }
    let q = choose|q: int|
        0 <= q < parent.children.len() && #[trigger] parent.children[q] == ElementView::Node(field);
    assert forall|own: Seq<ReferenceView>| #[trigger]
        references_of(schema, parent.children, offset, at, own).contains(r) by {
        lemma_child_references(schema, parent.children, q, offset, at, own, r);
    }
    if let Some(module) = inner {
        let m = choose|m: int|
            0 <= m < block.children.len() && #[trigger] block.children[m] == ElementView::Node(
                module,
            );
        assert forall|own: Seq<ReferenceView>| #[trigger]
            element_references(schema, block.children[m], offset, scope, own).contains(r) by {
            assert(references_of(schema, module.children, offset, at, own).contains(r));
        }
        assert forall|own: Seq<ReferenceView>| #[trigger]
            references_of(schema, block.children, offset, scope, own).contains(r) by {
            lemma_child_references(schema, block.children, m, offset, scope, own, r);
        }
    }
    assert forall|own: Seq<ReferenceView>| #[trigger]
        element_references(
            schema,
            children[c].element,
            offset,
            ScopeView::Unknown,
            own,
        ).contains(r) by {
        assert(references_of(schema, block.children, offset, scope, own).contains(r));
    }
    lemma_element_listed(schema, children, c, r);
    let all = document_references(schema, children);
    let i = choose|i: int| 0 <= i < all.len() && all[i] == r;
    assert(all[i].kind == refers_to(ty, p)->0);
}

proof fn lemma_definition_kept(
    schema: Schema,
    children: Seq<ChildView>,
    c: int,
    def: DefinitionView,
)
    requires
        0 <= c < children.len(),
        definition_of(schema, children[c]) == Some(def),
    ensures
        definitions_of(schema, children).contains(def),
    decreases children.len(),
{
    let rest = definitions_of(schema, children.drop_last());
    let all = definitions_of(schema, children);
    if c < children.len() - 1 {
        assert(children.drop_last()[c] == children[c]);
        lemma_definition_kept(schema, children.drop_last(), c, def);
        let i = choose|i: int| 0 <= i < rest.len() && rest[i] == def;
        assert(all[i] == def);
    } else {
        assert(all[rest.len() as int] == def);
    }
}

/// Law: a block whose type defines a kind defines its name, where the name stands:
/// the document's definitions list it, and the cursor on the name finds it. The name
/// of a block of any other type, known or not, defines nothing.
pub proof fn block_names_are_definitions<O: OpenerOracle>(
    oracle: O,
    text: Seq<char>,
    schema: Schema,
    c: int,
    block: NodeView,
    n: int,
    cursor: int,
)
    requires
        blen(text) <= u32::MAX,
        0 <= c < parse_text(oracle, text).children.len(),
        parse_text(oracle, text).children[c].element == ElementView::Node(block),
        block.kind == SyntaxKind::BLOCK,
        name_at(block, n),
        parse_text(oracle, text).children[c].offset + leaf_at(block, n).start <= cursor
            < parse_text(oracle, text).children[c].offset + leaf_at(block, n).end,
    ensures
        ({
            let children = parse_text(oracle, text).children;
            let path = path_of(children, blen(text) as int, cursor, Bias::Right);
            let leaf = leaf_at(block, n);
            let found = path_definition(schema, path);
            &&& path_reference(schema, path) is None
            &&& path_symbol(schema, path) == found
            &&& forall|b: int| #[trigger]
                block_type_is(schema, block, b) && schema.blocks@[b].defines is Some ==> {
                    &&& found is Some
                    &&& found->0.kind == schema.blocks@[b].defines->0
                    &&& found->0.name == leaf.text
                    &&& covers(found->0.span, children[c].offset, leaf)
                    &&& definitions_of(schema, children).contains(
                        DefinitionView {
                            name: leaf.text,
                            kind: schema.blocks@[b].defines->0,
                            span: found->0.span,
                        },
                    )
                }
            &&& (forall|b: int| #[trigger]
                block_type_is(schema, block, b) ==> schema.blocks@[b].defines is None)
                ==> found is None
        }),
{
    let children = parse_text(oracle, text).children;
    let len = blen(text) as int;
    let offset = children[c].offset;
    let leaf = leaf_at(block, n);
    parse_tiles_the_text(oracle, text);
    lemma_document_at(children, len, c);
    lemma_tiled_at(block.children, block.start, block.end, n);
    lemma_pick_child(children, len, cursor, c, 0);
    let none = PathView { offset, nodes: Seq::empty(), token: None };
    lemma_in_child(block, n, cursor - offset, none);
    let path = path_of(children, len, cursor, Bias::Right);
    assert(path.token == Some(leaf));
    assert(path.nodes.last() == block);
    second_word_is_the_name(block, n);
    let k = choose|k: int|
        #![trigger key_at(block, k)]
        k < n && key_at(block, k) && forall|j: int| k < j < n ==> !#[trigger] word_at(block, j);
    head_word_is_the_key(block, k);
    let found = path_definition(schema, path);
    assert forall|b: int| #[trigger]
        block_type_is(schema, block, b) && schema.blocks@[b].defines is Some implies {
        &&& found is Some
        &&& found->0.kind == schema.blocks@[b].defines->0
        &&& found->0.name == leaf.text
        &&& covers(found->0.span, children[c].offset, leaf)
        &&& definitions_of(schema, children).contains(
            DefinitionView {
                name: leaf.text,
                kind: schema.blocks@[b].defines->0,
                span: found->0.span,
            },
        )
    } by {
        lemma_block_type(schema, block, b);
        let def = DefinitionView {
            name: leaf.text,
            kind: schema.blocks@[b].defines->0,
            span: found->0.span,
        };
        assert(definition_of(schema, children[c]) == Some(def));
        lemma_definition_kept(schema, children, c, def);
    }
    if forall|b: int| #[trigger]
        block_type_is(schema, block, b) ==> schema.blocks@[b].defines is None {
        let keyword = leaf_at(block, k).text;
        if block_named(schema.blocks@, keyword) is Some {
            let b = lemma_counting_block(schema.blocks@, keyword);
            assert(key_is(block, schema.blocks@[b].name@));
            assert(block_type_is(schema, block, b));
        }
    }
}

proof fn lemma_counting_block(blocks: Seq<crate::schema::BlockType>, name: Seq<char>) -> (b: int)
    requires
        block_named(blocks, name) is Some,
    ensures
        counts_block(blocks, b),
        blocks[b].name@ == name,
        block_named(blocks, name) == Some(blocks[b]),
    decreases blocks.len(),
{
    if blocks.last().name@ == name {
        blocks.len() - 1
    } else {
        let rest = blocks.drop_last();
        let b = lemma_counting_block(rest, name);
        assert(blocks[b] == rest[b]);
        assert forall|c: int| b < c < blocks.len() implies (#[trigger] blocks[c]).name@
            != blocks[b].name@ by {
            if c < rest.len() {
                assert(rest[c] == blocks[c]);
            }
        }
        b
    }
}

/// Law: hovering over the key of a field tells the declared type of the field, where
/// the key stands.
pub proof fn hovering_tells_the_declared_type<O: OpenerOracle>(
    oracle: O,
    text: Seq<char>,
    schema: Schema,
    c: int,
    block: NodeView,
    inner: Option<NodeView>,
    field: NodeView,
    ty: ValueType,
    k: int,
    cursor: int,
)
    requires
        blen(text) <= u32::MAX,
        line_has_type(schema, parse_text(oracle, text).children, c, block, inner, field, ty),
        key_at(field, k),
        parse_text(oracle, text).children[c].offset + leaf_at(field, k).start <= cursor
            < parse_text(oracle, text).children[c].offset + leaf_at(field, k).end,
    ensures
        ({
            let children = parse_text(oracle, text).children;
            let path = path_of(children, blen(text) as int, cursor, Bias::Right);
            &&& path_hover(schema, path) matches Some(HoverView::Field { name, ty: told, span, .. })
            &&& told == ty
            &&& name == leaf_at(field, k).text
            &&& covers(span, children[c].offset, leaf_at(field, k))
        }),
{
    let children = parse_text(oracle, text).children;
    cursor_finds_the_line(oracle, text, schema, c, block, inner, field, ty, k, cursor);
    lemma_line_tiled(oracle, text, schema, c, block, inner, field, ty);
    lemma_tiled_at(field.children, field.start, field.end, k);
    lemma_line_type(schema, children, c, block, inner, field, ty);
    head_word_is_the_key(field, k);
    let path = path_of(children, blen(text) as int, cursor, Bias::Right);
    assert(path.nodes.drop_last() =~= around(block, inner));
    lemma_found_name(path_scope(schema, around(block, inner)).fields(), leaf_at(field, k).text);
}

proof fn lemma_found_name(fields: Seq<crate::schema::Field>, name: Seq<char>)
    ensures
        crate::model::field_named(fields, name) matches Some(found) ==> found.name@ == name,
    decreases fields.len(),
{
    if fields.len() > 0 {
        lemma_found_name(fields.drop_first(), name);
    }
}

/// Law: hovering over the keyword of a block names the block, where the keyword
/// stands.
pub proof fn hovering_names_the_block<O: OpenerOracle>(
    oracle: O,
    text: Seq<char>,
    schema: Schema,
    c: int,
    block: NodeView,
    k: int,
    cursor: int,
)
    requires
        blen(text) <= u32::MAX,
        0 <= c < parse_text(oracle, text).children.len(),
        parse_text(oracle, text).children[c].element == ElementView::Node(block),
        block.kind == SyntaxKind::BLOCK,
        key_at(block, k),
        parse_text(oracle, text).children[c].offset + leaf_at(block, k).start <= cursor
            < parse_text(oracle, text).children[c].offset + leaf_at(block, k).end,
    ensures
        ({
            let children = parse_text(oracle, text).children;
            let path = path_of(children, blen(text) as int, cursor, Bias::Right);
            &&& path_hover(schema, path) matches Some(HoverView::Block { name, span })
            &&& name == leaf_at(block, k).text
            &&& covers(span, children[c].offset, leaf_at(block, k))
        }),
{
    let children = parse_text(oracle, text).children;
    let len = blen(text) as int;
    let offset = children[c].offset;
    parse_tiles_the_text(oracle, text);
    lemma_document_at(children, len, c);
    lemma_tiled_at(block.children, block.start, block.end, k);
    lemma_pick_child(children, len, cursor, c, 0);
    let none = PathView { offset, nodes: Seq::empty(), token: None };
    lemma_in_child(block, k, cursor - offset, none);
    head_word_is_the_key(block, k);
}

// ---------------------------------------------------------------------------
// References of the workspace
// ---------------------------------------------------------------------------
proof fn lemma_sites_in(
    file: Seq<char>,
    references: Seq<ReferenceView>,
    kind: RefKind,
    name: Seq<char>,
    acc: Seq<LocationView>,
    site: LocationView,
)
    ensures
        sites_in(file, references, kind, name, acc).contains(site) <==> acc.contains(site) || (
        site.file == file && exists|i: int|
            0 <= i < references.len() && (#[trigger] references[i]).kind == kind
                && same_ignoring_case(references[i].name, name) && references[i].span == site.span),
    decreases references.len(),
{
    let all = sites_in(file, references, kind, name, acc);
    if references.len() > 0 {
        let rest = references.drop_last();
        let before = sites_in(file, rest, kind, name, acc);
        lemma_sites_in(file, rest, kind, name, acc, site);
        let last = references.last();
        assert(references[references.len() - 1] == last);
        let fits = last.kind == kind && same_ignoring_case(last.name, name);
        if before.contains(site) {
            let i = choose|i: int| 0 <= i < before.len() && before[i] == site;
            assert(all[i] == site);
            if !acc.contains(site) {
                let i = choose|i: int|
                    0 <= i < rest.len() && (#[trigger] rest[i]).kind == kind && same_ignoring_case(
                        rest[i].name,
                        name,
                    ) && rest[i].span == site.span;
                assert(references[i] == rest[i]);
            }
        }
        if fits {
            assert(all[before.len() as int] == (LocationView { file, span: last.span }));
        }
        if all.contains(site) && !before.contains(site) {
            let i = choose|i: int| 0 <= i < all.len() && all[i] == site;
            if i < before.len() {
                assert(before[i] == site);
            }
        }
        if site.file == file && exists|i: int|
            0 <= i < references.len() && (#[trigger] references[i]).kind == kind
                && same_ignoring_case(references[i].name, name) && references[i].span
                == site.span {
            let i = choose|i: int|
                0 <= i < references.len() && (#[trigger] references[i]).kind == kind
                    && same_ignoring_case(references[i].name, name) && references[i].span
                    == site.span;
            if i < rest.len() {
                assert(rest[i] == references[i]);
            } else {
                assert(all[before.len() as int] == site);
            }
        }
    }
}

/// Law: the sites of a name are exactly the places that refer to it, in any case, as
/// the kind in question, in the file whose references list them.
pub proof fn sites_are_the_references(
    records: Seq<RecordView<ReferenceView>>,
    kind: RefKind,
    name: Seq<char>,
    site: LocationView,
)
    ensures
        sites_of(records, kind, name).contains(site) <==> exists|r: int, i: int|
            #![trigger records[r].items[i]]
            {
                &&& 0 <= r < records.len()
                &&& 0 <= i < records[r].items.len()
                &&& records[r].file == site.file
                &&& records[r].items[i].span == site.span
                &&& records[r].items[i].kind == kind
                &&& same_ignoring_case(records[r].items[i].name, name)
            },
    decreases records.len(),
{
    if records.len() > 0 {
        let rest = records.drop_last();
        let last = records.last();
        sites_are_the_references(rest, kind, name, site);
        lemma_sites_in(last.file, last.items, kind, name, sites_of(rest, kind, name), site);
        if sites_of(rest, kind, name).contains(site) {
            let (r, i) = choose|r: int, i: int|
                #![trigger rest[r].items[i]]
                {
                    &&& 0 <= r < rest.len()
                    &&& 0 <= i < rest[r].items.len()
                    &&& rest[r].file == site.file
                    &&& rest[r].items[i].span == site.span
                    &&& rest[r].items[i].kind == kind
                    &&& same_ignoring_case(rest[r].items[i].name, name)
                };
            assert(records[r].items[i] == rest[r].items[i]);
        } else if sites_of(records, kind, name).contains(site) {
            let i = choose|i: int|
                0 <= i < last.items.len() && (#[trigger] last.items[i]).kind == kind
                    && same_ignoring_case(last.items[i].name, name) && last.items[i].span
                    == site.span;
            assert(records[records.len() - 1].items[i] == last.items[i]);
        }
        if exists|r: int, i: int|
            #![trigger records[r].items[i]]
            {
                &&& 0 <= r < records.len()
                &&& 0 <= i < records[r].items.len()
                &&& records[r].file == site.file
                &&& records[r].items[i].span == site.span
                &&& records[r].items[i].kind == kind
                &&& same_ignoring_case(records[r].items[i].name, name)
            } {
            let (r, i) = choose|r: int, i: int|
                #![trigger records[r].items[i]]
                {
                    &&& 0 <= r < records.len()
                    &&& 0 <= i < records[r].items.len()
                    &&& records[r].file == site.file
                    &&& records[r].items[i].span == site.span
                    &&& records[r].items[i].kind == kind
                    &&& same_ignoring_case(records[r].items[i].name, name)
                };
            if r < rest.len() {
                assert(rest[r].items[i] == records[r].items[i]);
            } else {
                assert(last.items[i] == records[r].items[i]);
            }
        }
    }
}

// ---------------------------------------------------------------------------
// Tagged values
// ---------------------------------------------------------------------------
/// What value `p` of a line refers to, by the type of the line.
pub open spec fn made_by(
    ty: ValueType,
    values: Seq<LeafView>,
    p: int,
    offset: int,
) -> Option<ReferenceView> {
    match input_type(ty, inputs(values), p) {
        Some(element) => token_reference(element, values[p], offset),
        None => None,
    }
}

/// A word without quotes or colons.
pub open spec fn is_plain_word(s: Seq<char>) -> bool {
    !s.contains('"') && !s.contains(':')
}

/// The types of a line are a tagged one, behind others that are not: type `k`, alone or
/// in a sequence.
pub open spec fn is_tagged_at(
    ty: ValueType,
    k: int,
    prefix: Seq<char>,
    inner: ValueType,
) -> bool {
    match ty {
        ValueType::Prefixed { prefix: own, value_type } => k == 0 && own@ == prefix && *value_type
            == inner,
        ValueType::TokenList { tokens } => {
            &&& 0 <= k < tokens@.len()
            &&& forall|j: int| 0 <= j < k ==> is_untagged(#[trigger] tokens@[j])
            &&& tokens@[k] is Prefixed
            &&& tokens@[k]->Prefixed_prefix@ == prefix
            &&& *tokens@[k]->Prefixed_value_type == inner
        },
        _ => false,
    }
}

proof fn lemma_reaches_tagged(
    specs: Seq<ValueType>,
    j: int,
    k: int,
    input: Seq<Seq<char>>,
    pos: int,
)
    requires
        0 <= j <= k < specs.len(),
        k <= pos,
        forall|i: int| 0 <= i < k ==> is_untagged(#[trigger] specs[i]),
    ensures
        listed_type(specs, j, input, j, pos) == listed_type(specs, k, input, k, pos),
    decreases k - j,
{
    if j < k {
        assert(is_untagged(specs[j]));
        lemma_reaches_tagged(specs, j + 1, k, input, pos);
    }
}

/// Law: a value with its tag in front, in any case, refers to the name behind the colon:
/// the place is that of the name.
pub proof fn tagged_values_refer(
    ty: ValueType,
    k: int,
    prefix: Seq<char>,
    kind: RefKind,
    values: Seq<LeafView>,
    tag: Seq<char>,
    name: Seq<char>,
    offset: int,
)
    requires
        is_tagged_at(ty, k, prefix, ValueType::Reference { ref_kind: kind }),
        0 <= k < values.len(),
        is_plain_word(tag),
        is_plain_word(name),
        name.len() > 0,
        lower(tag) == lower(prefix),
        values[k].text == tag + seq![':'] + name,
        0 <= offset,
        0 <= values[k].start,
        values[k].end == values[k].start + blen(values[k].text),
        offset + values[k].end <= u32::MAX,
    ensures
        ({
            let made = made_by(ty, values, k, offset);
            &&& made is Some
            &&& made->0.kind == kind
            &&& made->0.name == name
            &&& made->0.span.start == offset + values[k].start + blen(tag) + 1
            &&& made->0.span.end == offset + values[k].end
        }),
{
    let text = values[k].text;
    let input = inputs(values);
    assert(!text.contains('"')) by {
        if text.contains('"') {
            let i = choose|i: int| 0 <= i < text.len() && text[i] == '"';
            if i < tag.len() {
                assert(tag[i] == '"');
                assert(tag.contains('"'));
            } else if i > tag.len() {
                assert(name[i - tag.len() - 1] == '"');
                assert(name.contains('"'));
            }
        }
    }
    assert(says(values[k], text));
    quotes_enclose_what_is_said(values[k], text);
    assert(input[k] == text);
    let n = tag.len() as int;
    assert(text[n] == ':');
    assert forall|j: int| 0 <= j < n implies (#[trigger] text[j]) != ':' by {
        assert(text[j] == tag[j]);
        if tag[j] == ':' {
            assert(tag.contains(':'));
        }
    }
    lemma_find(text, ':', 0, n);
    assert(text.take(n) =~= tag);
    assert(text.skip(n + 1) =~= name);
    assert(text.last() == name.last());
    if name.last() == ':' {
        assert(name.contains(':'));
    }
    lemma_encode_concat(tag + seq![':'], name);
    lemma_encode_concat(tag, seq![':']);
    lemma_blen_one(':');
    lemma_clen(':');
    assert(blen(text) == blen(tag) + 1 + blen(name));
    if tag.len() > 0 {
        assert(text[0] == tag[0]);
        if tag[0] == '"' {
            assert(tag.contains('"'));
        }
    }
    match ty {
        ValueType::TokenList { tokens } => {
            lemma_reaches_tagged(tokens@, 0, k, input, k);
        },
        _ => {
            assert(seq![ty][0] == ty);
        },
    }
}

/// Law: where the tag is a token of its own, the value behind it refers to what it says,
/// and the tag to nothing.
pub proof fn values_behind_tags_refer(
    ty: ValueType,
    k: int,
    prefix: Seq<char>,
    kind: RefKind,
    values: Seq<LeafView>,
    tag: Seq<char>,
    name: Seq<char>,
    offset: int,
)
    requires
        is_tagged_at(ty, k, prefix, ValueType::Reference { ref_kind: kind }),
        0 <= k,
        k + 1 < values.len(),
        is_plain_word(tag),
        lower(tag) == lower(prefix),
        values[k].text == tag + seq![':'],
        says(values[k + 1], name),
        0 <= offset,
        0 <= values[k + 1].start <= values[k + 1].end,
        offset + values[k + 1].end <= u32::MAX,
    ensures
        made_by(ty, values, k, offset) is None,
        made_by(ty, values, k + 1, offset) is Some,
        made_by(ty, values, k + 1, offset)->0.kind == kind,
        made_by(ty, values, k + 1, offset)->0.name == name,
        covers(made_by(ty, values, k + 1, offset)->0.span, offset, values[k + 1]),
{
    let text = values[k].text;
    let input = inputs(values);
    assert(!text.contains('"')) by {
        if text.contains('"') {
            let i = choose|i: int| 0 <= i < text.len() && text[i] == '"';
            if i < tag.len() {
                assert(tag[i] == '"');
                assert(tag.contains('"'));
            }
        }
    }
    assert(says(values[k], text));
    quotes_enclose_what_is_said(values[k], text);
    quotes_enclose_what_is_said(values[k + 1], name);
    let n = tag.len() as int;
    assert(input[k] == text);
    assert(text.last() == ':');
    assert(text.drop_last() =~= tag);
    assert(text[n] == ':');
    assert forall|j: int| 0 <= j < n implies (#[trigger] text[j]) != ':' by {
        assert(text[j] == tag[j]);
        if tag[j] == ':' {
            assert(tag.contains(':'));
        }
    }
    lemma_find(text, ':', 0, n);
    assert(text.skip(n + 1).len() == 0);
    match ty {
        ValueType::TokenList { tokens } => {
            lemma_reaches_tagged(tokens@, 0, k, input, k);
            lemma_reaches_tagged(tokens@, 0, k, input, k + 1);
        },
        _ => {
            assert(seq![ty][0] == ty);
        },
    }
}

/// Law: the type behind a tagged one counts for the next value, or for the one after
/// that where the tag is a token of its own.
pub proof fn types_behind_tags_move_on(
    tokens: Vec<ValueType>,
    k: int,
    prefix: Seq<char>,
    inner: ValueType,
    values: Seq<LeafView>,
    tag: Seq<char>,
)
    requires
        is_tagged_at(ValueType::TokenList { tokens }, k, prefix, inner),
        k + 1 < tokens@.len(),
        is_untagged(tokens@[k + 1]),
        0 <= k,
        k + 2 < values.len(),
        is_plain_word(tag),
        lower(tag) == lower(prefix),
    ensures
        values[k].text == tag + seq![':'] ==> input_type(
            ValueType::TokenList { tokens },
            inputs(values),
            k + 2,
        ) == Some(tokens@[k + 1]),
        !values[k].text.contains('"') && values[k].text.len() > 0 && values[k].text.last() != ':'
            ==> input_type(ValueType::TokenList { tokens }, inputs(values), k + 1) == Some(
            tokens@[k + 1],
        ),
{
    let specs = tokens@;
    let input = inputs(values);
    let text = values[k].text;
    lemma_reaches_tagged(specs, 0, k, input, k + 1);
    lemma_reaches_tagged(specs, 0, k, input, k + 2);
    reveal_with_fuel(listed_type, 3);
    if text == tag + seq![':'] {
        assert(!text.contains('"')) by {
            if text.contains('"') {
                let i = choose|i: int| 0 <= i < text.len() && text[i] == '"';
                if i < tag.len() {
                    assert(tag[i] == '"');
                    assert(tag.contains('"'));
                }
            }
        }
        assert(says(values[k], text));
        quotes_enclose_what_is_said(values[k], text);
        assert(input[k] == text);
        assert(text.last() == ':');
        assert(text.drop_last() =~= tag);
    } else if !text.contains('"') && text.len() > 0 && text.last() != ':' {
        assert(says(values[k], text));
        quotes_enclose_what_is_said(values[k], text);
        assert(input[k] == text);
    }
}

} // verus!
