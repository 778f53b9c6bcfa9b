//! Document structure: the block/module outline and the foldable scope ranges.
//! Purely structural: derived from the tree alone, no schema needed.

use vstd::prelude::*;
use vstd::string::*;

use crate::analyzer::Span;
use crate::ast::{Block, Module};
use crate::index::{rebase, span_at};
use crate::kind::SyntaxKind;
use crate::layout::{
    document_tiled, extent, lemma_tiled_order, parse_tiles_the_text, tiled, well_placed,
};
use crate::parser::{child_views, parse_text, ChildView, OpenerOracle, Parse};
use crate::text::blen;
use crate::tree::{
    views, ElementView, LeafView, NodeView, SyntaxElement, SyntaxNode, SyntaxToken,
};

verus! {

/// What a symbol is.
#[derive(Debug, Clone, Copy, PartialEq, Eq, Structural)]
pub enum SymKind {
    /// A top-level block (`Object AmericaTankCrusader`).
    Block,
    /// A `Behavior = … ModuleTag_x`-style module.
    Module,
    /// A structural sub-block (`WeaponSet`, `ConditionState`, …).
    SubBlock,
}

/// One outline entry: a block, module, or sub-block scope.
#[derive(Debug)]
pub struct DocSymbol {
    /// The block's name (`AmericaTankCrusader`), the module's type name
    /// (`AutoHealBehavior`), or the sub-block keyword (`WeaponSet`).
    pub name: String,
    /// Secondary text: the block keyword (`Object`) or the module tag.
    pub detail: Option<String>,
    pub kind: SymKind,
    /// The whole scope, header line through its `End`.
    pub span: Span,
    /// The token to highlight when the symbol is selected.
    pub selection: Span,
    pub children: Vec<DocSymbol>,
}

#[verifier::ext_equal]
pub struct SymbolView {
    pub name: Seq<char>,
    pub detail: Option<Seq<char>>,
    pub kind: SymKind,
    pub span: Span,
    pub selection: Span,
    pub children: Seq<SymbolView>,
}

pub open spec fn symbol_views(s: Seq<DocSymbol>) -> Seq<SymbolView>
    decreases s,
{
    Seq::new(
        s.len(),
        |i: int|
            if 0 <= i < s.len() {
                s[i].view()
            } else {
                arbitrary()
            },
    )
}

impl DocSymbol {
    pub open spec fn view(&self) -> SymbolView
        decreases self,
    {
        SymbolView {
            name: self.name@,
            detail: match self.detail {
                Some(detail) => Some(detail@),
                None => None,
            },
            kind: self.kind,
            span: self.span,
            selection: self.selection,
            children: symbol_views(self.children@),
        }
    }
}

/// The range of a token in the document.
pub open spec fn leaf_span(leaf: LeafView, offset: int) -> Span {
    span_at(offset as u32, leaf.start as u32, leaf.end as u32)
}

/// The range of a node in the document.
pub open spec fn node_span(node: NodeView, offset: int) -> Span {
    span_at(offset as u32, node.start as u32, node.end as u32)
}

/// The outline entry of a module or sub-block.
/// `Behavior = AutoHealBehavior ModuleTag_x` shows as the module type with the
/// tag as detail; sub-blocks show under their keyword with the argument as
/// detail.
pub open spec fn module_symbol(node: NodeView, offset: int) -> Option<SymbolView>
    decreases node,
{
    match node.head_word() {
        None => None,
        Some(slot) => {
            let children = module_symbols(node.children, offset);
            let span = node_span(node, offset);
            Some(
                match (node.after_equals(0), node.after_equals(1)) {
                    (Some(name), Some(tag)) => SymbolView {
                        name: name.text,
                        detail: Some(tag.text),
                        kind: SymKind::Module,
                        span,
                        selection: leaf_span(name, offset),
                        children,
                    },
                    (Some(name), None) => SymbolView {
                        name: slot.text,
                        detail: Some(name.text),
                        kind: SymKind::SubBlock,
                        span,
                        selection: leaf_span(slot, offset),
                        children,
                    },
                    _ => SymbolView {
                        name: slot.text,
                        detail: None,
                        kind: SymKind::SubBlock,
                        span,
                        selection: leaf_span(slot, offset),
                        children,
                    },
                },
            )
        },
    }
}

/// The outline entries of the modules among `children`.
pub open spec fn module_symbols(children: Seq<ElementView>, offset: int) -> Seq<SymbolView>
    decreases children,
{
    if children.len() == 0 {
        Seq::empty()
    } else {
        let rest = module_symbols(children.drop_last(), offset);
        match children.last() {
            ElementView::Node(node) => if node.kind == SyntaxKind::MODULE {
                match module_symbol(node, offset) {
                    Some(symbol) => rest.push(symbol),
                    None => rest,
                }
            } else {
                rest
            },
            ElementView::Token(_) => rest,
        }
    }
}

/// The outline entry of a block. Singleton blocks (`GameData`,
/// `AudioSettings`, …) have no name and show under their keyword.
pub open spec fn block_symbol(node: NodeView, offset: int) -> Option<SymbolView> {
    match node.head_word() {
        None => None,
        Some(keyword) => Some(
            match node.second_word() {
                Some(name) => SymbolView {
                    name: name.text,
                    detail: Some(keyword.text),
                    kind: SymKind::Block,
                    span: node_span(node, offset),
                    selection: leaf_span(name, offset),
                    children: module_symbols(node.children, offset),
                },
                None => SymbolView {
                    name: keyword.text,
                    detail: None,
                    kind: SymKind::Block,
                    span: node_span(node, offset),
                    selection: leaf_span(keyword, offset),
                    children: module_symbols(node.children, offset),
                },
            },
        ),
    }
}

/// The outline of a document.
pub open spec fn symbols_of(children: Seq<ChildView>) -> Seq<SymbolView>
    decreases children.len(),
{
    if children.len() == 0 {
        Seq::empty()
    } else {
        let rest = symbols_of(children.drop_last());
        let last = children.last();
        match last.element {
            ElementView::Node(node) => if node.kind == SyntaxKind::BLOCK {
                match block_symbol(node, last.offset) {
                    Some(symbol) => rest.push(symbol),
                    None => rest,
                }
            } else {
                rest
            },
            ElementView::Token(_) => rest,
        }
    }
}

fn span_of(token: &SyntaxToken, offset: u32) -> (span: Span)
    ensures
        span == leaf_span(token.view(), offset as int),
{
    rebase(offset, token.start, token.end)
}

/// The nested block/module outline of a document.
pub fn document_symbols(parse: &Parse) -> (out: Vec<DocSymbol>)
    ensures
        symbol_views(out@) == symbols_of(child_views(parse.children@)),
{
    let ghost all = child_views(parse.children@);
    let mut out: Vec<DocSymbol> = Vec::new();
    let mut i: usize = 0;
    assert(symbol_views(out@) =~= symbols_of(all.take(0)));
    while i < parse.children.len()
        invariant
            i <= parse.children@.len(),
            all == child_views(parse.children@),
            symbol_views(out@) == symbols_of(all.take(i as int)),
        decreases parse.children@.len() - i,
    {
        let child = &parse.children[i];
        proof {
            assert(all.take(i + 1).drop_last() =~= all.take(i as int));
            assert(all.take(i + 1).last() == child.view());
        }
        let ghost before = symbol_views(out@);
        let element: &SyntaxElement = &child.element;
        if let SyntaxElement::Node(node) = element {
            if node.kind == SyntaxKind::BLOCK {
                if let Some(symbol) = outline_block(node, child.offset) {
                    let ghost view = symbol.view();
                    out.push(symbol);
                    assert(symbol_views(out@) =~= before.push(view));
                }
            }
        }
        i += 1;
    }
    assert(all.take(i as int) =~= all);
    out
}

fn outline_block(node: &SyntaxNode, offset: u32) -> (out: Option<DocSymbol>)
    ensures
        match out {
            Some(symbol) => block_symbol(node.view(), offset as int) == Some(symbol.view()),
            None => block_symbol(node.view(), offset as int) is None,
        },
{
    let block = Block(node);
    let keyword = match block.keyword() {
        Some(keyword) => keyword,
        None => {
            return None;
        },
    };
    let children = outline_children(node, offset);
    let span = rebase(offset, node.start, node.end);
    let symbol = match block.name() {
        Some(name) => DocSymbol {
            name: name.text.clone(),
            detail: Some(keyword.text.clone()),
            kind: SymKind::Block,
            span,
            selection: span_of(name, offset),
            children,
        },
        None => DocSymbol {
            name: keyword.text.clone(),
            detail: None,
            kind: SymKind::Block,
            span,
            selection: span_of(keyword, offset),
            children,
        },
    };
    Some(symbol)
}

fn outline_children(node: &SyntaxNode, offset: u32) -> (out: Vec<DocSymbol>)
    ensures
        symbol_views(out@) == module_symbols(node.view().children, offset as int),
    decreases node, 0int,
{
    let ghost all = views(node.children@);
    let mut out: Vec<DocSymbol> = Vec::new();
    let mut i: usize = 0;
    assert(symbol_views(out@) =~= module_symbols(all.take(0), offset as int));
    while i < node.children.len()
        invariant
            i <= node.children@.len(),
            all == views(node.children@),
            symbol_views(out@) == module_symbols(all.take(i as int), offset as int),
        decreases node.children@.len() - i,
    {
        proof {
            assert(all.take(i + 1).drop_last() =~= all.take(i as int));
            assert(all.take(i + 1).last() == node.children@[i as int].view());
            assert(decreases_to!(node => node.children));
            assert(decreases_to!(node.children@ => node.children@[i as int]));
        }
        let ghost before = symbol_views(out@);
        if let SyntaxElement::Node(child) = &node.children[i] {
            assert(decreases_to!(node.children@[i as int] => node.children@[i as int]->Node_0));
            if child.kind == SyntaxKind::MODULE {
                if let Some(symbol) = outline_module(child, offset) {
                    let ghost view = symbol.view();
                    out.push(symbol);
                    assert(symbol_views(out@) =~= before.push(view));
                }
            }
        }
        i += 1;
    }
    assert(all.take(i as int) =~= all);
    out
}

fn outline_module(node: &SyntaxNode, offset: u32) -> (out: Option<DocSymbol>)
    ensures
        match out {
            Some(symbol) => module_symbol(node.view(), offset as int) == Some(symbol.view()),
            None => module_symbol(node.view(), offset as int) is None,
        },
    decreases node, 1int,
{
    let module = Module(node);
    let slot = match module.slot() {
        Some(slot) => slot,
        None => {
            return None;
        },
    };
    let children = outline_children(node, offset);
    let span = rebase(offset, node.start, node.end);
    let symbol = match (module.module_name(), module.tag()) {
        (Some(name), Some(tag)) => DocSymbol {
            name: name.text.clone(),
            detail: Some(tag.text.clone()),
            kind: SymKind::Module,
            span,
            selection: span_of(name, offset),
            children,
        },
        (Some(name), None) => DocSymbol {
            name: slot.text.clone(),
            detail: Some(name.text.clone()),
            kind: SymKind::SubBlock,
            span,
            selection: span_of(slot, offset),
            children,
        },
        _ => DocSymbol {
            name: slot.text.clone(),
            detail: None,
            kind: SymKind::SubBlock,
            span,
            selection: span_of(slot, offset),
            children,
        },
    };
    Some(symbol)
}

// ---------------------------------------------------------------------------
// Folding
// ---------------------------------------------------------------------------
/// Whether a node is a scope.
pub open spec fn is_scope(kind: SyntaxKind) -> bool {
    kind == SyntaxKind::BLOCK || kind == SyntaxKind::MODULE
}

/// The ranges of the scopes of an element, outermost first, after `acc`.
pub open spec fn element_folds(e: ElementView, offset: int, acc: Seq<Span>) -> Seq<Span>
    decreases e,
{
    match e {
        ElementView::Node(node) => if is_scope(node.kind) {
            folds_in(node.children, offset, acc.push(node_span(node, offset)))
        } else {
            acc
        },
        ElementView::Token(_) => acc,
    }
}

pub open spec fn folds_in(elements: Seq<ElementView>, offset: int, acc: Seq<Span>) -> Seq<Span>
    decreases elements,
{
    if elements.len() == 0 {
        acc
    } else {
        element_folds(elements.last(), offset, folds_in(elements.drop_last(), offset, acc))
    }
}

/// The foldable ranges of a document.
pub open spec fn folds_of(children: Seq<ChildView>) -> Seq<Span>
    decreases children.len(),
{
    if children.len() == 0 {
        Seq::empty()
    } else {
        element_folds(
            children.last().element,
            children.last().offset,
            folds_of(children.drop_last()),
        )
    }
}

/// Every foldable scope range (blocks, modules, sub-blocks), outermost first.
pub fn folding_ranges(parse: &Parse) -> (out: Vec<Span>)
    ensures
        out@ == folds_of(child_views(parse.children@)),
{
    let ghost all = child_views(parse.children@);
    let mut out: Vec<Span> = Vec::new();
    let mut i: usize = 0;
    assert(out@ =~= folds_of(all.take(0)));
    while i < parse.children.len()
        invariant
            i <= parse.children@.len(),
            all == child_views(parse.children@),
            out@ == folds_of(all.take(i as int)),
        decreases parse.children@.len() - i,
    {
        let child = &parse.children[i];
        proof {
            assert(all.take(i + 1).drop_last() =~= all.take(i as int));
            assert(all.take(i + 1).last() == child.view());
        }
        let element: &SyntaxElement = &child.element;
        if let SyntaxElement::Node(node) = element {
            collect_folds(node, child.offset, &mut out);
        }
        i += 1;
    }
    assert(all.take(i as int) =~= all);
    out
}

fn collect_folds(node: &SyntaxNode, offset: u32, out: &mut Vec<Span>)
    ensures
        final(out)@ == element_folds(ElementView::Node(node.view()), offset as int, old(out)@),
    decreases node,
{
    match node.kind {
        SyntaxKind::BLOCK | SyntaxKind::MODULE => {},
        _ => {
            return ;
        },
    }
    out.push(rebase(offset, node.start, node.end));
    let ghost start = out@;
    let ghost all = views(node.children@);
    let mut i: usize = 0;
    assert(all.take(0) =~= Seq::<ElementView>::empty());
    while i < node.children.len()
        invariant
            i <= node.children@.len(),
            all == views(node.children@),
            out@ == folds_in(all.take(i as int), offset as int, start),
        decreases node.children@.len() - i,
    {
        proof {
            assert(all.take(i + 1).drop_last() =~= all.take(i as int));
            assert(all.take(i + 1).last() == node.children@[i as int].view());
            assert(decreases_to!(node => node.children));
            assert(decreases_to!(node.children@ => node.children@[i as int]));
        }
        if let SyntaxElement::Node(child) = &node.children[i] {
            assert(decreases_to!(node.children@[i as int] => node.children@[i as int]->Node_0));
            collect_folds(child, offset, out);
        }
        proof {
            let before = folds_in(all.take(i as int), offset as int, start);
            assert(out@ == element_folds(all[i as int], offset as int, before));
        }
        i += 1;
    }
    assert(all.take(i as int) =~= all);
}

/// Ranges in order of their starts, any two of them nested or disjoint.
pub open spec fn nested(spans: Seq<Span>) -> bool {
    forall|i: int, j: int| #![trigger spans[i], spans[j]]
        0 <= i < j < spans.len() ==> spans[i].start <= spans[j].start && (spans[j].end
            <= spans[i].end || spans[i].end <= spans[j].start)
}

/// Each range starts by `start`, and ends by then or encloses up to `end`.
spec fn around(spans: Seq<Span>, start: int, end: int) -> bool {
    forall|i: int|
        0 <= i < spans.len() ==> (#[trigger] spans[i]).start <= start && (spans[i].end <= start
            || end <= spans[i].end)
}

/// `longer` adds ranges between `start` and `end` to `spans`.
spec fn grows(spans: Seq<Span>, longer: Seq<Span>, start: int, end: int) -> bool {
    &&& spans.len() <= longer.len()
    &&& forall|i: int| 0 <= i < spans.len() ==> longer[i] == #[trigger] spans[i]
    &&& forall|i: int|
        spans.len() <= i < longer.len() ==> start <= (#[trigger] longer[i]).start && longer[i].start
            < longer[i].end <= end
}

proof fn lemma_element_folds(e: ElementView, offset: int, acc: Seq<Span>)
    requires
        well_placed(e),
        0 <= offset,
        0 <= extent(e).0,
        offset + extent(e).1 <= u32::MAX,
        nested(acc),
        around(acc, offset + extent(e).0, offset + extent(e).1),
    ensures
        nested(element_folds(e, offset, acc)),
        grows(
            acc,
            element_folds(e, offset, acc),
            offset + extent(e).0,
            offset + extent(e).1,
        ),
    decreases e,
{
    if let ElementView::Node(node) = e {
        if is_scope(node.kind) {
            let span = node_span(node, offset);
            let more = acc.push(span);
            assert(span.start == offset + node.start && span.end == offset + node.end);
            assert forall|i: int, j: int| #![trigger more[i], more[j]]
                0 <= i < j < more.len() implies more[i].start <= more[j].start && (more[j].end
                <= more[i].end || more[i].end <= more[j].start) by {
                assert(acc[i] == more[i]);
                if j < acc.len() {
                    assert(acc[j] == more[j]);
                }
            }
            assert forall|i: int| 0 <= i < more.len() implies (#[trigger] more[i]).start <= offset
                + node.start && (more[i].end <= offset + node.start || offset + node.end
                <= more[i].end) by {
                if i < acc.len() {
                    assert(acc[i] == more[i]);
                }
            }
            lemma_folds_in(node.children, offset, more, node.start, node.end);
            let out = element_folds(e, offset, acc);
            assert forall|i: int| 0 <= i < acc.len() implies out[i] == #[trigger] acc[i] by {
                assert(more[i] == acc[i]);
            }
            assert(out[acc.len() as int] == more[acc.len() as int]);
        }
    }
}

proof fn lemma_folds_in(
    elements: Seq<ElementView>,
    offset: int,
    acc: Seq<Span>,
    start: int,
    end: int,
)
    requires
        tiled(elements, start, end),
        0 <= offset,
        0 <= start,
        offset + end <= u32::MAX,
        nested(acc),
        around(acc, offset + start, offset + end),
    ensures
        nested(folds_in(elements, offset, acc)),
        grows(acc, folds_in(elements, offset, acc), offset + start, offset + end),
    decreases elements,
{
    if elements.len() > 0 {
        let last = elements.last();
        let middle = extent(last).0;
        assert(well_placed(last));
        lemma_tiled_order(elements.drop_last(), start, middle);
        lemma_tiled_order(elements, start, end);
        assert(around(acc, offset + start, offset + middle)) by {
            assert(middle < end);
        }
        lemma_folds_in(elements.drop_last(), offset, acc, start, middle);
        let before = folds_in(elements.drop_last(), offset, acc);
        assert forall|i: int| 0 <= i < before.len() implies (#[trigger] before[i]).start <= offset
            + middle && (before[i].end <= offset + middle || offset + end <= before[i].end) by {
            if i < acc.len() {
                assert(acc[i] == before[i]);
            }
        }
        lemma_element_folds(last, offset, before);
        let out = folds_in(elements, offset, acc);
        assert forall|i: int| 0 <= i < acc.len() implies out[i] == #[trigger] acc[i] by {
            assert(before[i] == acc[i]);
        }
        assert forall|i: int| acc.len() <= i < out.len() implies offset + start <= (
        #[trigger] out[i]).start && out[i].start < out[i].end <= offset + end by {
            if i < before.len() {
                assert(before[i] == out[i]);
            }
        }
    }
}

proof fn lemma_document_folds(children: Seq<ChildView>, end: int)
    requires
        document_tiled(children, end),
        end <= u32::MAX,
    ensures
        0 <= end,
        nested(folds_of(children)),
        forall|i: int|
            0 <= i < folds_of(children).len() ==> (#[trigger] folds_of(children)[i]).start
                < folds_of(children)[i].end <= end,
    decreases children.len(),
{
    if children.len() > 0 {
        let last = children.last();
        lemma_document_folds(children.drop_last(), last.offset);
        let before = folds_of(children.drop_last());
        let to = extent(last.element).1;
        assert(around(before, last.offset, last.offset + to));
        lemma_element_folds(last.element, last.offset, before);
        let out = folds_of(children);
        assert forall|i: int| 0 <= i < out.len() implies (#[trigger] out[i]).start < out[i].end
            <= end by {
            if i < before.len() {
                assert(before[i] == out[i]);
            }
        }
    }
}

/// Law: the foldable ranges of a parsed text are non-empty, inside the text, in
/// order of their starts (so outermost first), and any two of them are nested
/// or disjoint.
pub proof fn folding_ranges_nest<O: OpenerOracle>(oracle: O, text: Seq<char>)
    requires
        blen(text) <= u32::MAX,
    ensures
        nested(folds_of(parse_text(oracle, text).children)),
        forall|i: int|
            0 <= i < folds_of(parse_text(oracle, text).children).len() ==> {
                let span = #[trigger] folds_of(parse_text(oracle, text).children)[i];
                span.start < span.end <= blen(text)
            },
{
    parse_tiles_the_text(oracle, text);
    lemma_document_folds(parse_text(oracle, text).children, blen(text) as int);
}

} // verus!
