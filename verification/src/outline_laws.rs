//! Laws of the outline of a document: what is listed and folded of its blocks, its
//! modules and their parts, in terms of how they are written.

use vstd::prelude::*;
use vstd::string::*;

use crate::analyzer::Span;
use crate::facts::TagView;
use crate::index::definition_of;
use crate::kind::SyntaxKind;
use crate::lines::{
    argument_at, argument_follows_the_equals, bare_nodes_have_no_argument, block_type_is,
    equals_at, head_word_is_the_key, holds_node, key_at, leaf_at, lemma_block_type, name_at,
    second_word_has_a_place, second_word_is_the_name, tag_at, tag_follows_the_argument, untagged,
    untagged_nodes_have_no_tag, word_at,
};
use crate::outline::{
    block_symbol, element_folds, folds_in, folds_of, is_scope, module_symbol, module_symbols,
    node_span, symbols_of, SymKind, SymbolView,
};
use crate::parser::ChildView;
use crate::schema::{RefKind, Schema};
use crate::set_laws::lemma_nodes;
use crate::sites::{document_tags, node_tags};
use crate::tree::{ElementView, LeafView, NodeView};

verus! {

/// A span covers bytes `start` to `end` of an element that begins at an offset.
pub open spec fn spans(span: Span, start: int, end: int, offset: int) -> bool {
    span.start == offset + start && span.end == offset + end
}

/// A node lies within a document whose offsets are of 32 bits.
pub open spec fn node_fits(node: NodeView, offset: int) -> bool {
    0 <= offset && 0 <= node.start <= node.end && offset + node.end <= u32::MAX
}

/// A token lies within a node.
pub open spec fn lies_in(token: LeafView, node: NodeView) -> bool {
    node.start <= token.start <= token.end <= node.end
}

// ---------------------------------------------------------------------------
// Symbols
// ---------------------------------------------------------------------------
/// A symbol shows a block: by its name, with its keyword beside it, or by its keyword
/// alone if it has no name. All of the block belongs to it, and its modules.
pub open spec fn shows_block(symbol: SymbolView, node: NodeView, offset: int) -> bool {
    &&& symbol.kind == SymKind::Block
    &&& spans(symbol.span, node.start, node.end, offset)
    &&& symbol.children == module_symbols(node.children, offset)
    &&& forall|k: int| #[trigger]
        key_at(node, k) && lies_in(leaf_at(node, k), node) ==> if exists|n: int| #[trigger]
            name_at(node, n) {
            symbol.detail == Some(leaf_at(node, k).text)
        } else {
            symbol.name == leaf_at(node, k).text && symbol.detail is None && spans(
                symbol.selection,
                leaf_at(node, k).start,
                leaf_at(node, k).end,
                offset,
            )
        }
    &&& forall|n: int| #[trigger]
        name_at(node, n) && lies_in(leaf_at(node, n), node) ==> symbol.name == leaf_at(node, n).text
            && spans(symbol.selection, leaf_at(node, n).start, leaf_at(node, n).end, offset)
}

proof fn lemma_block_symbol(node: NodeView, offset: int)
    requires
        node.head_word() is Some,
        node_fits(node, offset),
    ensures
        block_symbol(node, offset) is Some,
        shows_block(block_symbol(node, offset)->0, node, offset),
{
    let symbol = block_symbol(node, offset)->0;
    assert forall|k: int| #[trigger] key_at(node, k) && lies_in(leaf_at(node, k), node) implies if exists|
        n: int,
    | #[trigger] name_at(node, n) {
        symbol.detail == Some(leaf_at(node, k).text)
    } else {
        symbol.name == leaf_at(node, k).text && symbol.detail is None && spans(
            symbol.selection,
            leaf_at(node, k).start,
            leaf_at(node, k).end,
            offset,
        )
    } by {
        head_word_is_the_key(node, k);
        if exists|n: int| #[trigger] name_at(node, n) {
            let n = choose|n: int| #[trigger] name_at(node, n);
            second_word_is_the_name(node, n);
        } else if node.second_word() is Some {
            let n = second_word_has_a_place(node);
            assert(name_at(node, n));
        }
    }
    assert forall|n: int| #[trigger] name_at(node, n) && lies_in(
        leaf_at(node, n),
        node,
    ) implies symbol.name == leaf_at(node, n).text && spans(
        symbol.selection,
        leaf_at(node, n).start,
        leaf_at(node, n).end,
        offset,
    ) by {
        second_word_is_the_name(node, n);
    }
}

/// A symbol shows a module: by the name of its type with its tag beside it, if it has
/// both, and else by its keyword. All of the module belongs to it, and its modules.
pub open spec fn shows_module(symbol: SymbolView, node: NodeView, offset: int) -> bool {
    &&& spans(symbol.span, node.start, node.end, offset)
    &&& symbol.children == module_symbols(node.children, offset)
    &&& forall|a: int, t: int|
        #![trigger argument_at(node, a), tag_at(node, t)]
        argument_at(node, a) && tag_at(node, t) && lies_in(leaf_at(node, a), node) ==> symbol.kind
            == SymKind::Module && symbol.name == leaf_at(node, a).text && symbol.detail == Some(
            leaf_at(node, t).text,
        ) && spans(symbol.selection, leaf_at(node, a).start, leaf_at(node, a).end, offset)
    &&& forall|k: int, a: int|
        #![trigger key_at(node, k), untagged(node, a)]
        key_at(node, k) && untagged(node, a) && lies_in(leaf_at(node, k), node) ==> symbol.kind
            == SymKind::SubBlock && symbol.name == leaf_at(node, k).text && symbol.detail == Some(
            leaf_at(node, a).text,
        ) && spans(symbol.selection, leaf_at(node, k).start, leaf_at(node, k).end, offset)
    &&& forall|k: int| #[trigger]
        key_at(node, k) && is_plain(node) && lies_in(leaf_at(node, k), node) ==> symbol.kind
            == SymKind::SubBlock && symbol.name == leaf_at(node, k).text && symbol.detail is None
            && spans(symbol.selection, leaf_at(node, k).start, leaf_at(node, k).end, offset)
}

/// No word follows an `=` on the line of a node.
pub open spec fn is_plain(node: NodeView) -> bool {
    forall|e: int, j: int|
        #![trigger equals_at(node, e), word_at(node, j)]
        e < j && equals_at(node, e) ==> !word_at(node, j)
}

proof fn lemma_module_symbol(node: NodeView, offset: int)
    requires
        node.head_word() is Some,
        node_fits(node, offset),
    ensures
        module_symbol(node, offset) is Some,
        shows_module(module_symbol(node, offset)->0, node, offset),
{
    let symbol = module_symbol(node, offset)->0;
    assert forall|a: int, t: int|
        #![trigger argument_at(node, a), tag_at(node, t)]
        argument_at(node, a) && tag_at(node, t) && lies_in(leaf_at(node, a), node) implies symbol.kind
        == SymKind::Module && symbol.name == leaf_at(node, a).text && symbol.detail == Some(
        leaf_at(node, t).text,
    ) && spans(symbol.selection, leaf_at(node, a).start, leaf_at(node, a).end, offset) by {
        argument_follows_the_equals(node, a);
        tag_follows_the_argument(node, t);
    }
    assert forall|k: int, a: int|
        #![trigger key_at(node, k), untagged(node, a)]
        key_at(node, k) && untagged(node, a) && lies_in(leaf_at(node, k), node) implies symbol.kind
        == SymKind::SubBlock && symbol.name == leaf_at(node, k).text && symbol.detail == Some(
        leaf_at(node, a).text,
    ) && spans(symbol.selection, leaf_at(node, k).start, leaf_at(node, k).end, offset) by {
        head_word_is_the_key(node, k);
        argument_follows_the_equals(node, a);
        untagged_nodes_have_no_tag(node, a);
    }
    assert forall|k: int| #[trigger]
        key_at(node, k) && is_plain(node) && lies_in(leaf_at(node, k), node) implies symbol.kind
        == SymKind::SubBlock && symbol.name == leaf_at(node, k).text && symbol.detail is None
        && spans(symbol.selection, leaf_at(node, k).start, leaf_at(node, k).end, offset) by {
        head_word_is_the_key(node, k);
        bare_nodes_have_no_argument(node);
    }
}

/// A symbol shows a block of a document.
pub open spec fn is_block_of(symbol: SymbolView, children: Seq<ChildView>) -> bool {
    exists|c: int|
        0 <= c < children.len() && (#[trigger] children[c]).element is Node
            && children[c].element->Node_0.kind == SyntaxKind::BLOCK && shows_block(
            symbol,
            children[c].element->Node_0,
            children[c].offset,
        )
}

/// A block is shown among symbols.
pub open spec fn is_outlined(symbols: Seq<SymbolView>, node: NodeView, offset: int) -> bool {
    exists|i: int| 0 <= i < symbols.len() && #[trigger] shows_block(symbols[i], node, offset)
}

/// Law: the outline shows every block that has a keyword, and nothing else.
pub proof fn blocks_are_outlined(children: Seq<ChildView>)
    requires
        forall|c: int|
            0 <= c < children.len() && (#[trigger] children[c]).element is Node ==> node_fits(
                children[c].element->Node_0,
                children[c].offset,
            ),
    ensures
        forall|c: int, k: int|
            #![trigger children[c], key_at(children[c].element->Node_0, k)]
            0 <= c < children.len() && children[c].element is Node
                && children[c].element->Node_0.kind == SyntaxKind::BLOCK && key_at(
                children[c].element->Node_0,
                k,
            ) ==> is_outlined(
                symbols_of(children),
                children[c].element->Node_0,
                children[c].offset,
            ),
        forall|i: int|
            0 <= i < symbols_of(children).len() ==> is_block_of(
                #[trigger] symbols_of(children)[i],
                children,
            ),
    decreases children.len(),
{
    let all = symbols_of(children);
    if children.len() > 0 {
        let rest = children.drop_last();
        let n = children.len() - 1;
        let before = symbols_of(rest);
        assert forall|c: int|
            0 <= c < rest.len() && (#[trigger] rest[c]).element is Node implies node_fits(
            rest[c].element->Node_0,
            rest[c].offset,
        ) by {
            assert(children[c] == rest[c]);
        }
        blocks_are_outlined(rest);
        let last = children[n];
        if let ElementView::Node(node) = last.element {
            if node.head_word() is Some {
                lemma_block_symbol(node, last.offset);
            }
        }
        assert forall|c: int, k: int|
            #![trigger children[c], key_at(children[c].element->Node_0, k)]
            0 <= c < children.len() && children[c].element is Node
                && children[c].element->Node_0.kind == SyntaxKind::BLOCK && key_at(
                children[c].element->Node_0,
                k,
            ) implies is_outlined(all, children[c].element->Node_0, children[c].offset) by {
            let node = children[c].element->Node_0;
            if c < n {
                assert(rest[c] == children[c]);
                assert(is_outlined(before, node, children[c].offset));
                let i = choose|i: int|
                    0 <= i < before.len() && #[trigger] shows_block(
                        before[i],
                        node,
                        children[c].offset,
                    );
                assert(all[i] == before[i]);
                assert(shows_block(all[i], node, children[c].offset));
            } else {
                head_word_is_the_key(node, k);
                assert(shows_block(all[before.len() as int], node, children[c].offset));
            }
        }
        assert forall|i: int| 0 <= i < all.len() implies is_block_of(
            #[trigger] all[i],
            children,
        ) by {
            if i < before.len() {
                assert(all[i] == before[i]);
                assert(is_block_of(before[i], rest));
                let c = choose|c: int|
                    0 <= c < rest.len() && (#[trigger] rest[c]).element is Node
                        && rest[c].element->Node_0.kind == SyntaxKind::BLOCK && shows_block(
                        before[i],
                        rest[c].element->Node_0,
                        rest[c].offset,
                    );
                assert(children[c] == rest[c]);
            } else {
                assert(children[n].element is Node);
            }
        }
    }
}

/// A symbol shows a module of a list of elements.
pub open spec fn is_module_of(
    symbol: SymbolView,
    children: Seq<ElementView>,
    offset: int,
) -> bool {
    exists|c: int|
        0 <= c < children.len() && (#[trigger] children[c]) is Node && children[c]->Node_0.kind
            == SyntaxKind::MODULE && shows_module(symbol, children[c]->Node_0, offset)
}

/// A module is shown among symbols.
pub open spec fn is_listed(symbols: Seq<SymbolView>, node: NodeView, offset: int) -> bool {
    exists|i: int| 0 <= i < symbols.len() && #[trigger] shows_module(symbols[i], node, offset)
}

/// Law: under a block or a module, the outline shows every module that it holds and
/// that has a keyword, and nothing else.
pub proof fn modules_are_outlined(children: Seq<ElementView>, offset: int)
    requires
        forall|i: int|
            0 <= i < children.len() && (#[trigger] children[i]) is Node ==> node_fits(
                children[i]->Node_0,
                offset,
            ),
    ensures
        forall|c: int, k: int|
            #![trigger children[c], key_at(children[c]->Node_0, k)]
            0 <= c < children.len() && children[c] is Node && children[c]->Node_0.kind
                == SyntaxKind::MODULE && key_at(children[c]->Node_0, k) ==> is_listed(
                module_symbols(children, offset),
                children[c]->Node_0,
                offset,
            ),
        forall|i: int|
            0 <= i < module_symbols(children, offset).len() ==> is_module_of(
                #[trigger] module_symbols(children, offset)[i],
                children,
                offset,
            ),
    decreases children.len(),
{
    let all = module_symbols(children, offset);
    if children.len() > 0 {
        let rest = children.drop_last();
        let n = children.len() - 1;
        let before = module_symbols(rest, offset);
        assert forall|i: int| 0 <= i < rest.len() && (#[trigger] rest[i]) is Node implies node_fits(
            rest[i]->Node_0,
            offset,
        ) by {
            assert(children[i] == rest[i]);
        }
        modules_are_outlined(rest, offset);
        if let ElementView::Node(node) = children[n] {
            if node.head_word() is Some {
                lemma_module_symbol(node, offset);
            }
        }
        assert forall|c: int, k: int|
            #![trigger children[c], key_at(children[c]->Node_0, k)]
            0 <= c < children.len() && children[c] is Node && children[c]->Node_0.kind
                == SyntaxKind::MODULE && key_at(children[c]->Node_0, k) implies is_listed(
            all,
            children[c]->Node_0,
            offset,
        ) by {
            let node = children[c]->Node_0;
            if c < n {
                assert(rest[c] == children[c]);
                assert(is_listed(before, node, offset));
                let i = choose|i: int|
                    0 <= i < before.len() && #[trigger] shows_module(before[i], node, offset);
                assert(all[i] == before[i]);
                assert(shows_module(all[i], node, offset));
            } else {
                head_word_is_the_key(node, k);
                assert(shows_module(all[before.len() as int], node, offset));
            }
        }
        assert forall|i: int| 0 <= i < all.len() implies is_module_of(
            #[trigger] all[i],
            children,
            offset,
        ) by {
            if i < before.len() {
                assert(all[i] == before[i]);
                assert(is_module_of(before[i], rest, offset));
                let c = choose|c: int|
                    0 <= c < rest.len() && (#[trigger] rest[c]) is Node && rest[c]->Node_0.kind
                        == SyntaxKind::MODULE && shows_module(before[i], rest[c]->Node_0, offset);
                assert(children[c] == rest[c]);
            } else {
                assert(children[n] is Node);
            }
        }
    }
}

// ---------------------------------------------------------------------------
// Tags
// ---------------------------------------------------------------------------
proof fn lemma_node_tags(object: Seq<char>, nodes: Seq<NodeView>, acc: Seq<TagView>, tag: TagView)
    ensures
        node_tags(object, nodes, acc).contains(tag) <==> acc.contains(tag) || tag.object == object
            && exists|i: int|
            0 <= i < nodes.len() && (#[trigger] nodes[i]).kind == SyntaxKind::MODULE
                && nodes[i].after_equals(1) is Some && nodes[i].after_equals(1)->0.text == tag.tag,
    decreases nodes.len(),
{
    if nodes.len() > 0 {
        let rest = nodes.drop_last();
        let n = nodes.len() - 1;
        let before = node_tags(object, rest, acc);
        let all = node_tags(object, nodes, acc);
        lemma_node_tags(object, rest, acc, tag);
        if before.contains(tag) {
            let j = choose|j: int| 0 <= j < before.len() && before[j] == tag;
            assert(all[j] == tag);
            if !acc.contains(tag) {
                let i = choose|i: int|
                    0 <= i < rest.len() && (#[trigger] rest[i]).kind == SyntaxKind::MODULE
                        && rest[i].after_equals(1) is Some && rest[i].after_equals(1)->0.text
                        == tag.tag;
                assert(nodes[i] == rest[i]);
            }
        } else {
            if all.contains(tag) {
                let j = choose|j: int| 0 <= j < all.len() && all[j] == tag;
                if j < before.len() {
                    assert(before[j] == tag);
                }
                assert(nodes[n].kind == SyntaxKind::MODULE);
            }
            if tag.object == object && exists|i: int|
                0 <= i < nodes.len() && (#[trigger] nodes[i]).kind == SyntaxKind::MODULE
                    && nodes[i].after_equals(1) is Some && nodes[i].after_equals(1)->0.text
                    == tag.tag {
                let i = choose|i: int|
                    0 <= i < nodes.len() && (#[trigger] nodes[i]).kind == SyntaxKind::MODULE
                        && nodes[i].after_equals(1) is Some && nodes[i].after_equals(1)->0.text
                        == tag.tag;
                if i < n {
                    assert(rest[i] == nodes[i]);
                }
                assert(all[before.len() as int] == tag);
            }
        }
    }
}

/// Law: every tag of a module of a named object is listed under the name of the
/// object.
pub proof fn tags_of_objects_are_listed(
    schema: Schema,
    children: Seq<ChildView>,
    c: int,
    block: NodeView,
    b: int,
    n: int,
    module: NodeView,
    t: int,
)
    requires
        0 <= c < children.len(),
        children[c].element == ElementView::Node(block),
        block.kind == SyntaxKind::BLOCK,
        block_type_is(schema, block, b),
        schema.blocks@[b].defines == Some(RefKind::Object),
        name_at(block, n),
        holds_node(block, module),
        module.kind == SyntaxKind::MODULE,
        tag_at(module, t),
    ensures
        document_tags(schema, children).contains(
            TagView { object: leaf_at(block, n).text, tag: leaf_at(module, t).text },
        ),
    decreases children.len(),
{
    let tag = TagView { object: leaf_at(block, n).text, tag: leaf_at(module, t).text };
    let rest = children.drop_last();
    let last = children.last();
    let before = document_tags(schema, rest);
    if c < rest.len() {
        assert(rest[c] == children[c]);
        tags_of_objects_are_listed(schema, rest, c, block, b, n, module, t);
        if let Some(def) = definition_of(schema, last) {
            if let ElementView::Node(node) = last.element {
                lemma_node_tags(def.name, node.nodes(), before, tag);
            }
        }
    } else {
        lemma_block_type(schema, block, b);
        second_word_is_the_name(block, n);
        tag_follows_the_argument(module, t);
        lemma_nodes(block.children, module);
        let nodes = block.nodes();
        let i = choose|i: int| 0 <= i < nodes.len() && nodes[i] == module;
        assert(nodes[i].kind == SyntaxKind::MODULE);
        lemma_node_tags(leaf_at(block, n).text, nodes, before, tag);
    }
}

/// Law: every tag that is listed under a name is that of a module of an object of
/// that name.
pub proof fn listed_tags_are_of_objects(schema: Schema, children: Seq<ChildView>, tag: TagView)
    requires
        document_tags(schema, children).contains(tag),
    ensures
        exists|c: int, module: NodeView|
            #![trigger children[c], module.after_equals(1)]
            0 <= c < children.len() && children[c].element is Node
                && children[c].element->Node_0.kind == SyntaxKind::BLOCK && definition_of(
                schema,
                children[c],
            ) is Some && definition_of(schema, children[c])->0.kind == RefKind::Object
                && definition_of(schema, children[c])->0.name == tag.object && holds_node(
                children[c].element->Node_0,
                module,
            ) && module.kind == SyntaxKind::MODULE && module.after_equals(1) is Some
                && module.after_equals(1)->0.text == tag.tag,
    decreases children.len(),
{
    if children.len() > 0 {
        let rest = children.drop_last();
        let last = children.last();
        let n = children.len() - 1;
        let before = document_tags(schema, rest);
        if before.contains(tag) {
            listed_tags_are_of_objects(schema, rest, tag);
            let (c, module) = choose|c: int, module: NodeView|
                #![trigger rest[c], module.after_equals(1)]
                0 <= c < rest.len() && rest[c].element is Node && rest[c].element->Node_0.kind
                    == SyntaxKind::BLOCK && definition_of(schema, rest[c]) is Some && definition_of(
                    schema,
                    rest[c],
                )->0.kind == RefKind::Object && definition_of(schema, rest[c])->0.name
                    == tag.object && holds_node(rest[c].element->Node_0, module) && module.kind
                    == SyntaxKind::MODULE && module.after_equals(1) is Some && module.after_equals(
                    1,
                )->0.text == tag.tag;
            assert(children[c] == rest[c]);
            assert(module.after_equals(1) is Some);
        } else {
            let def = definition_of(schema, last)->0;
            let node = last.element->Node_0;
            let nodes = node.nodes();
            lemma_node_tags(def.name, nodes, before, tag);
            let i = choose|i: int|
                0 <= i < nodes.len() && (#[trigger] nodes[i]).kind == SyntaxKind::MODULE
                    && nodes[i].after_equals(1) is Some && nodes[i].after_equals(1)->0.text
                    == tag.tag;
            assert(nodes.contains(nodes[i]));
            lemma_nodes(node.children, nodes[i]);
            assert(children[n] == last);
            assert(holds_node(node, nodes[i]));
            assert(nodes[i].after_equals(1) is Some);
        }
    }
}

// ---------------------------------------------------------------------------
// Folding
// ---------------------------------------------------------------------------
proof fn lemma_folds_stay(e: ElementView, offset: int, acc: Seq<Span>)
    ensures
        acc.len() <= element_folds(e, offset, acc).len(),
        forall|i: int| 0 <= i < acc.len() ==> element_folds(e, offset, acc)[i] == #[trigger] acc[i],
    decreases e,
{
    if let ElementView::Node(node) = e {
        if is_scope(node.kind) {
            let more = acc.push(node_span(node, offset));
            lemma_folds_in_stay(node.children, offset, more);
            assert forall|i: int| 0 <= i < acc.len() implies element_folds(e, offset, acc)[i]
                == #[trigger] acc[i] by {
                assert(more[i] == acc[i]);
            }
        }
    }
}

proof fn lemma_folds_in_stay(elements: Seq<ElementView>, offset: int, acc: Seq<Span>)
    ensures
        acc.len() <= folds_in(elements, offset, acc).len(),
        forall|i: int|
            0 <= i < acc.len() ==> folds_in(elements, offset, acc)[i] == #[trigger] acc[i],
    decreases elements,
{
    if elements.len() > 0 {
        let before = folds_in(elements.drop_last(), offset, acc);
        lemma_folds_in_stay(elements.drop_last(), offset, acc);
        lemma_folds_stay(elements.last(), offset, before);
        assert forall|i: int| 0 <= i < acc.len() implies folds_in(elements, offset, acc)[i]
            == #[trigger] acc[i] by {
            assert(before[i] == acc[i]);
        }
    }
}

/// A span is among others.
pub open spec fn has_fold(folds: Seq<Span>, node: NodeView, offset: int) -> bool {
    exists|i: int| 0 <= i < folds.len() && #[trigger] spans(folds[i], node.start, node.end, offset)
}

proof fn lemma_fold_of(elements: Seq<ElementView>, offset: int, acc: Seq<Span>, p: int, node: NodeView)
    requires
        0 <= p < elements.len(),
        elements[p] is Node,
        forall|own: Seq<Span>|
            has_fold(#[trigger] element_folds(elements[p], offset, own), node, offset),
    ensures
        has_fold(folds_in(elements, offset, acc), node, offset),
    decreases elements.len(),
{
    let rest = elements.drop_last();
    let before = folds_in(rest, offset, acc);
    let all = folds_in(elements, offset, acc);
    if p < rest.len() {
        assert(rest[p] == elements[p]);
        lemma_fold_of(rest, offset, acc, p, node);
        let i = choose|i: int|
            0 <= i < before.len() && #[trigger] spans(before[i], node.start, node.end, offset);
        lemma_folds_stay(elements.last(), offset, before);
        assert(all[i] == before[i]);
        assert(spans(all[i], node.start, node.end, offset));
    } else {
        assert(has_fold(element_folds(elements[p], offset, before), node, offset));
    }
}

/// Law: every block and every module folds, from its first line to its end.
pub proof fn scopes_fold(children: Seq<ChildView>, c: int, block: NodeView, inner: Option<NodeView>)
    requires
        0 <= c < children.len(),
        children[c].element == ElementView::Node(block),
        is_scope(block.kind),
        node_fits(block, children[c].offset),
        inner matches Some(module) ==> holds_node(block, module) && is_scope(module.kind)
            && node_fits(module, children[c].offset),
    ensures
        has_fold(
            folds_of(children),
            match inner {
                None => block,
                Some(module) => module,
            },
            children[c].offset,
        ),
    decreases children.len(),
{
    let rest = children.drop_last();
    let before = folds_of(rest);
    let all = folds_of(children);
    let offset = children[c].offset;
    let node = match inner {
        None => block,
        Some(module) => module,
    };
    if c < rest.len() {
        assert(rest[c] == children[c]);
        scopes_fold(rest, c, block, inner);
        let i = choose|i: int|
            0 <= i < before.len() && #[trigger] spans(before[i], node.start, node.end, offset);
        lemma_folds_stay(children.last().element, children.last().offset, before);
        assert(all[i] == before[i]);
        assert(spans(all[i], node.start, node.end, offset));
    } else {
        lemma_own_fold(block, offset, before);
        if let Some(module) = inner {
            let p = choose|p: int|
                0 <= p < block.children.len() && #[trigger] block.children[p] == ElementView::Node(
                    module,
                );
            assert forall|own: Seq<Span>| has_fold(
                #[trigger] element_folds(block.children[p], offset, own),
                module,
                offset,
            ) by {
                lemma_own_fold(module, offset, own);
            }
            lemma_fold_of(
                block.children,
                offset,
                before.push(node_span(block, offset)),
                p,
                module,
            );
        }
    }
}

proof fn lemma_own_fold(node: NodeView, offset: int, acc: Seq<Span>)
    requires
        is_scope(node.kind),
        node_fits(node, offset),
    ensures
        has_fold(element_folds(ElementView::Node(node), offset, acc), node, offset),
{
    let span = node_span(node, offset);
    let more = acc.push(span);
    let all = element_folds(ElementView::Node(node), offset, acc);
    lemma_folds_in_stay(node.children, offset, more);
    assert(more[acc.len() as int] == span);
    assert(all[acc.len() as int] == span);
    assert(spans(all[acc.len() as int], node.start, node.end, offset));
}

/// Law: a document folds only at its blocks and modules: one without any folds
/// nowhere.
pub proof fn lines_do_not_fold(children: Seq<ChildView>)
    requires
        forall|c: int|
            0 <= c < children.len() && (#[trigger] children[c]).element is Node ==> !is_scope(
                children[c].element->Node_0.kind,
            ),
    ensures
        folds_of(children).len() == 0,
    decreases children.len(),
{
    if children.len() > 0 {
        let rest = children.drop_last();
        assert forall|c: int|
            0 <= c < rest.len() && (#[trigger] rest[c]).element is Node implies !is_scope(
            rest[c].element->Node_0.kind,
        ) by {
            assert(children[c] == rest[c]);
        }
        lines_do_not_fold(rest);
        assert(children.last() == children[children.len() - 1]);
    }
}

} // verus!
