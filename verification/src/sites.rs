//! What a document contributes to the workspace besides definitions: the
//! references it makes and the module tags of its objects.

use vstd::prelude::*;
use vstd::string::*;

use crate::analyzer::Analyzer;
use crate::ast::{leaf_views, nodes_in, Block, Field, Module};
use crate::facts::{item_views, ModuleTag, TagView};
use crate::index::definition_of;
use crate::kind::SyntaxKind;
use crate::model::{scope_of, scope_schema, ScopeSchema, ScopeView};
use crate::nav::{
    input_type, inputs, reference_in, token_reference, type_at, ReferenceAt, ReferenceView,
};
use crate::parser::{child_views, ChildView, Parse};
use crate::schema::{RefKind, Schema, ValueType};
use crate::semantic::field_type;
use crate::tree::{
    views, ElementView, LeafView, NodeView, SyntaxElement, SyntaxNode, SyntaxToken,
};

verus! {

/// The references that the first `n` values of a field make, after `acc`.
pub open spec fn value_references(
    ty: ValueType,
    values: Seq<LeafView>,
    offset: int,
    n: int,
    acc: Seq<ReferenceView>,
) -> Seq<ReferenceView>
    decreases n,
{
    if n <= 0 {
        acc
    } else {
        let rest = value_references(ty, values, offset, n - 1, acc);
        match input_type(ty, inputs(values), n - 1) {
            Some(element) => match token_reference(element, values[n - 1], offset) {
                Some(reference) => rest.push(reference),
                None => rest,
            },
            None => rest,
        }
    }
}

/// The references in an element, in order, after `acc`.
pub open spec fn element_references(
    schema: Schema,
    e: ElementView,
    offset: int,
    scope: ScopeView,
    acc: Seq<ReferenceView>,
) -> Seq<ReferenceView>
    decreases e,
{
    match e {
        ElementView::Token(_) => acc,
        ElementView::Node(node) => if node.kind == SyntaxKind::FIELD {
            match field_type(scope, node) {
                Some(ty) => value_references(
                    ty,
                    node.values(),
                    offset,
                    node.values().len() as int,
                    acc,
                ),
                None => acc,
            }
        } else if node.kind == SyntaxKind::BLOCK || node.kind == SyntaxKind::MODULE {
            references_of(schema, node.children, offset, scope_of(schema, scope, node), acc)
        } else {
            acc
        },
    }
}

pub open spec fn references_of(
    schema: Schema,
    elements: Seq<ElementView>,
    offset: int,
    scope: ScopeView,
    acc: Seq<ReferenceView>,
) -> Seq<ReferenceView>
    decreases elements,
{
    if elements.len() == 0 {
        acc
    } else {
        element_references(
            schema,
            elements.last(),
            offset,
            scope,
            references_of(schema, elements.drop_last(), offset, scope, acc),
        )
    }
}

/// The references in a document.
pub open spec fn document_references(schema: Schema, children: Seq<ChildView>) -> Seq<
    ReferenceView,
>
    decreases children.len(),
{
    if children.len() == 0 {
        Seq::empty()
    } else {
        element_references(
            schema,
            children.last().element,
            children.last().offset,
            ScopeView::Unknown,
            document_references(schema, children.drop_last()),
        )
    }
}

fn collect_values(ty: &ValueType, values: &Vec<&SyntaxToken>, offset: u32, out: &mut Vec<
    ReferenceAt,
>)
    ensures
        item_views(final(out)@) == value_references(
            *ty,
            leaf_views(values@),
            offset as int,
            values@.len() as int,
            item_views(old(out)@),
        ),
{
    let ghost start = item_views(out@);
    let ghost all = leaf_views(values@);
    let mut i: usize = 0;
    while i < values.len()
        invariant
            i <= values@.len(),
            all == leaf_views(values@),
            item_views(out@) == value_references(*ty, all, offset as int, i as int, start),
        decreases values@.len() - i,
    {
        let ghost before = item_views(out@);
        assert(all[i as int] == values@[i as int].view());
        if let Some(element) = type_at(ty, values, i) {
            if let Some(reference) = reference_in(element, values[i], offset) {
                let ghost view = reference@;
                out.push(reference);
                assert(item_views(out@) =~= before.push(view));
            }
        }
        i += 1;
    }
}

fn collect_references<'a>(
    analyzer: &'a Analyzer,
    node: &SyntaxNode,
    offset: u32,
    scope: ScopeSchema<'a>,
    out: &mut Vec<ReferenceAt>,
)
    ensures
        item_views(final(out)@) == element_references(
            analyzer.schema,
            ElementView::Node(node.view()),
            offset as int,
            scope.view(),
            item_views(old(out)@),
        ),
    decreases node,
{
    match node.kind {
        SyntaxKind::FIELD => {
            let field = Field(node);
            if let Some(key) = field.key() {
                if let Some(declared) = scope.field(key.text.as_str()) {
                    collect_values(&declared.value_type, &field.value_tokens(), offset, out);
                }
            }
            return ;
        },
        SyntaxKind::BLOCK | SyntaxKind::MODULE => {},
        _ => {
            return ;
        },
    }
    let inner = scope_schema(analyzer, scope, node);
    let ghost start = item_views(out@);
    let ghost all = views(node.children@);
    let mut i: usize = 0;
    assert(all.take(0) =~= Seq::<ElementView>::empty());
    while i < node.children.len()
        invariant
            i <= node.children@.len(),
            all == views(node.children@),
            item_views(out@) == references_of(
                analyzer.schema,
                all.take(i as int),
                offset as int,
                inner.view(),
                start,
            ),
        decreases node.children@.len() - i,
    {
        proof {
            assert(all.take(i + 1).drop_last() =~= all.take(i as int));
            assert(all.take(i + 1).last() == node.children@[i as int].view());
            assert(decreases_to!(node => node.children));
            assert(decreases_to!(node.children@ => node.children@[i as int]));
        }
        let ghost before = item_views(out@);
        if let SyntaxElement::Node(child) = &node.children[i] {
            assert(decreases_to!(node.children@[i as int] => node.children@[i as int]->Node_0));
            collect_references(analyzer, child, offset, inner, out);
        }
        assert(item_views(out@) == element_references(
            analyzer.schema,
            all[i as int],
            offset as int,
            inner.view(),
            before,
        ));
        i += 1;
    }
    assert(all.take(i as int) =~= all);
}

/// Collect the references that a parsed document makes.
pub fn references_in(analyzer: &Analyzer, parse: &Parse) -> (out: Vec<ReferenceAt>)
    ensures
        item_views(out@) == document_references(analyzer.schema, child_views(parse.children@)),
{
    let ghost all = child_views(parse.children@);
    let mut out: Vec<ReferenceAt> = Vec::new();
    let mut i: usize = 0;
    assert(item_views(out@) =~= document_references(analyzer.schema, all.take(0)));
    while i < parse.children.len()
        invariant
            i <= parse.children@.len(),
            all == child_views(parse.children@),
            item_views(out@) == document_references(analyzer.schema, all.take(i as int)),
        decreases parse.children@.len() - i,
    {
        let child = &parse.children[i];
        proof {
            assert(all.take(i + 1).drop_last() =~= all.take(i as int));
            assert(all.take(i + 1).last() == child.view());
        }
        let ghost before = item_views(out@);
        let element: &SyntaxElement = &child.element;
        if let SyntaxElement::Node(node) = element {
            collect_references(analyzer, node, child.offset, ScopeSchema::Unknown, &mut out);
        }
        assert(item_views(out@) == element_references(
            analyzer.schema,
            child.element.view(),
            child.offset as int,
            ScopeView::Unknown,
            before,
        ));
        i += 1;
    }
    assert(all.take(i as int) =~= all);
    out
}

/// The module tags among the nodes of an object, after `acc`.
pub open spec fn node_tags(object: Seq<char>, nodes: Seq<NodeView>, acc: Seq<TagView>) -> Seq<
    TagView,
>
    decreases nodes.len(),
{
    if nodes.len() == 0 {
        acc
    } else {
        let rest = node_tags(object, nodes.drop_last(), acc);
        let last = nodes.last();
        match last.after_equals(1) {
            Some(tag) => if last.kind == SyntaxKind::MODULE {
                rest.push(TagView { object, tag: tag.text })
            } else {
                rest
            },
            None => rest,
        }
    }
}

/// The module tags of the objects of a document.
pub open spec fn document_tags(schema: Schema, children: Seq<ChildView>) -> Seq<TagView>
    decreases children.len(),
{
    if children.len() == 0 {
        Seq::empty()
    } else {
        let rest = document_tags(schema, children.drop_last());
        let last = children.last();
        match (definition_of(schema, last), last.element) {
            (Some(def), ElementView::Node(node)) => if def.kind == RefKind::Object {
                node_tags(def.name, node.nodes(), rest)
            } else {
                rest
            },
            _ => rest,
        }
    }
}

fn collect_tags(name: &str, node: &SyntaxNode, out: &mut Vec<ModuleTag>)
    ensures
        item_views(final(out)@) == node_tags(name@, node.view().nodes(), item_views(old(out)@)),
{
    let nodes = nodes_in(node);
    let ghost all = node.view().nodes();
    let ghost start = item_views(out@);
    let mut i: usize = 0;
    assert(all.take(0) =~= Seq::<NodeView>::empty());
    while i < nodes.len()
        invariant
            i <= nodes@.len(),
            all == crate::ast::node_views(nodes@),
            item_views(out@) == node_tags(name@, all.take(i as int), start),
        decreases nodes@.len() - i,
    {
        proof {
            assert(all.take(i + 1).drop_last() =~= all.take(i as int));
            assert(all.take(i + 1).last() == nodes@[i as int].view());
        }
        let ghost before = item_views(out@);
        if let Some(module) = Module::cast(nodes[i]) {
            if let Some(tag) = module.tag() {
                out.push(ModuleTag { object: name.to_owned(), tag: tag.text.clone() });
                assert(item_views(out@) =~= before.push(
                    TagView { object: name@, tag: tag.text@ },
                ));
            }
        }
        i += 1;
    }
    assert(all.take(i as int) =~= all);
}

/// Collect the module tags of the objects that a parsed document defines.
pub fn module_tags_in(analyzer: &Analyzer, parse: &Parse) -> (out: Vec<ModuleTag>)
    ensures
        item_views(out@) == document_tags(analyzer.schema, child_views(parse.children@)),
{
    let ghost all = child_views(parse.children@);
    let mut out: Vec<ModuleTag> = Vec::new();
    let mut i: usize = 0;
    assert(item_views(out@) =~= document_tags(analyzer.schema, all.take(0)));
    while i < parse.children.len()
        invariant
            i <= parse.children@.len(),
            all == child_views(parse.children@),
            item_views(out@) == document_tags(analyzer.schema, all.take(i as int)),
        decreases parse.children@.len() - i,
    {
        let child = &parse.children[i];
        proof {
            assert(all.take(i + 1).drop_last() =~= all.take(i as int));
            assert(all.take(i + 1).last() == child.view());
        }
        let element: &SyntaxElement = &child.element;
        if let SyntaxElement::Node(node) = element {
            if let Some(block) = Block::cast(node) {
                if let (Some(keyword), Some(name)) = (block.keyword(), block.name()) {
                    if let Some(known) = analyzer.block(keyword.text.as_str()) {
                        if let Some(RefKind::Object) = known.defines {
                            collect_tags(name.text.as_str(), node, &mut out);
                        }
                    }
                }
            }
        }
        i += 1;
    }
    assert(all.take(i as int) =~= all);
    out
}

} // verus!
