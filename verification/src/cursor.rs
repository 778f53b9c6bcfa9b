//! What is being written at a cursor: a block keyword, a field key, a field
//! value, a module name or the argument of a sub-block.

use vstd::prelude::*;
use vstd::string::*;

use crate::analyzer::Analyzer;
use crate::ast::{leaf_views, node_views, Block, Field, Module};
use crate::kind::SyntaxKind;
use crate::model::{path_scope, scope_at, slot_named, sub_block_named, ScopeSchema, ScopeView};
use crate::outline::is_scope;
use crate::position::{Path, PathView};
use crate::schema::{ModuleSlot, Schema, ValueType};
use crate::tree::{
    views, ElementView, LeafView, NodeView, SyntaxElement, SyntaxNode, SyntaxToken,
};

verus! {

/// The position of the innermost node of a kind, or -1.
pub open spec fn last_of_kind(nodes: Seq<NodeView>, kind: SyntaxKind) -> int
    decreases nodes.len(),
{
    if nodes.len() == 0 {
        -1
    } else if nodes.last().kind == kind {
        nodes.len() - 1
    } else {
        last_of_kind(nodes.drop_last(), kind)
    }
}

/// The number of nodes down to the innermost block or module.
pub open spec fn scope_depth(nodes: Seq<NodeView>) -> int
    decreases nodes.len(),
{
    if nodes.len() == 0 {
        0
    } else if is_scope(nodes.last().kind) {
        nodes.len() as int
    } else {
        scope_depth(nodes.drop_last())
    }
}

/// Whether an `=` ends by `at` among the tokens before any nested node, from
/// token `i` on.
pub open spec fn equals_before(children: Seq<ElementView>, at: int, i: int) -> bool
    decreases children.len() - i,
{
    if i < 0 || i >= children.len() {
        false
    } else {
        match children[i] {
            ElementView::Token(leaf) => if leaf.kind == SyntaxKind::EQUALS && leaf.end <= at {
                true
            } else {
                equals_before(children, at, i + 1)
            },
            ElementView::Node(_) => false,
        }
    }
}

/// Whether `at` lies on the header line: not after the first newline, from
/// token `i` on. A node without a newline before its nested nodes is all
/// header.
pub open spec fn on_header(children: Seq<ElementView>, at: int, i: int) -> bool
    decreases children.len() - i,
{
    if i < 0 || i >= children.len() {
        true
    } else {
        match children[i] {
            ElementView::Token(leaf) => if leaf.kind == SyntaxKind::NEWLINE {
                at <= leaf.start
            } else {
                on_header(children, at, i + 1)
            },
            ElementView::Node(_) => true,
        }
    }
}

/// The number of tokens that end by `at`.
pub open spec fn ended_by(tokens: Seq<LeafView>, at: int) -> nat
    decreases tokens.len(),
{
    if tokens.len() == 0 {
        0
    } else {
        ended_by(tokens.drop_last(), at) + if tokens.last().end <= at {
            1nat
        } else {
            0nat
        }
    }
}

/// What is being written. A depth is the number of path nodes down to the
/// scope node; 0 is file scope.
pub enum PosView {
    /// A top-level block keyword.
    TopLevel,
    /// A field or slot keyword.
    FieldKey { depth: int },
    /// The value of a field; `value_index` value tokens precede the cursor.
    FieldValue { depth: int, key: Seq<char>, value_index: nat },
    /// A module type name after a slot's `=`.
    ModuleName { accepts: Seq<String> },
    /// The argument of a sub-block header.
    SubBlockArg { ty: ValueType },
}

/// The argument type that a scope declares for a sub-block.
pub open spec fn argument_type(scope: ScopeView, keyword: Seq<char>) -> Option<ValueType> {
    match sub_block_named(scope.sub_blocks(), keyword) {
        Some(sub) => sub.argument_type,
        None => None,
    }
}

/// What is being written on or inside the field at position `f` of the path.
pub open spec fn field_position(nodes: Seq<NodeView>, f: int, at: int) -> PosView {
    let node = nodes[f];
    let depth = scope_depth(nodes.take(f));
    if equals_before(node.children, at, 0) {
        PosView::FieldValue {
            depth,
            key: match node.head_word() {
                Some(key) => key.text,
                None => Seq::empty(),
            },
            value_index: ended_by(node.values(), at),
        }
    } else if depth > 0 {
        PosView::FieldKey { depth }
    } else {
        PosView::TopLevel
    }
}

/// What is being written in the module at position `m` of the path.
pub open spec fn module_position(schema: Schema, nodes: Seq<NodeView>, m: int, at: int) -> PosView {
    let node = nodes[m];
    let parent = path_scope(schema, nodes.take(m));
    let inside = PosView::FieldKey { depth: m + 1 };
    match node.head_word() {
        None => inside,
        Some(slot) => if !on_header(node.children, at, 0) {
            inside
        } else if equals_before(node.children, at, 0) {
            match slot_named(parent.slots(), slot.text) {
                Some(known) => PosView::ModuleName { accepts: known.accepts@ },
                None => match argument_type(parent, slot.text) {
                    Some(ty) => PosView::SubBlockArg { ty },
                    None => inside,
                },
            }
        } else if slot.end <= at {
            match argument_type(parent, slot.text) {
                Some(ty) => PosView::SubBlockArg { ty },
                None => inside,
            }
        } else {
            inside
        },
    }
}

/// What is being written in the block at position `b` of the path. On the
/// keyword of a top-level block it is the keyword itself.
pub open spec fn block_position(nodes: Seq<NodeView>, b: int, at: int) -> PosView {
    let node = nodes[b];
    if b == 0 && on_header(node.children, at, 0) && !equals_before(node.children, at, 0)
        && node.head_word() is Some && at <= node.head_word()->0.end {
        PosView::TopLevel
    } else {
        PosView::FieldKey { depth: b + 1 }
    }
}

/// What is being written at byte `offset`, at the end of `path`.
pub open spec fn position_of(schema: Schema, path: PathView, offset: int) -> PosView {
    let at = offset - path.offset;
    let f = last_of_kind(path.nodes, SyntaxKind::FIELD);
    let m = last_of_kind(path.nodes, SyntaxKind::MODULE);
    let b = last_of_kind(path.nodes, SyntaxKind::BLOCK);
    if f >= 0 {
        field_position(path.nodes, f, at)
    } else if m >= 0 {
        module_position(schema, path.nodes, m, at)
    } else if b >= 0 {
        block_position(path.nodes, b, at)
    } else {
        PosView::TopLevel
    }
}

/// What is being written at a cursor.
pub enum PosContext<'a> {
    TopLevel,
    FieldKey { depth: usize },
    FieldValue { depth: usize, key: String, value_index: usize },
    ModuleName { slot: &'a ModuleSlot },
    SubBlockArg { ty: &'a ValueType },
}

impl<'a> PosContext<'a> {
    pub open spec fn view(&self) -> PosView {
        match self {
            PosContext::TopLevel => PosView::TopLevel,
            PosContext::FieldKey { depth } => PosView::FieldKey { depth: *depth as int },
            PosContext::FieldValue { depth, key, value_index } => PosView::FieldValue {
                depth: *depth as int,
                key: key@,
                value_index: *value_index as nat,
            },
            PosContext::ModuleName { slot } => PosView::ModuleName { accepts: slot.accepts@ },
            PosContext::SubBlockArg { ty } => PosView::SubBlockArg { ty: **ty },
        }
    }
}

/// The innermost node of a kind: one more than its position, or 0.
pub(crate) fn find_last(nodes: &Vec<&SyntaxNode>, kind: SyntaxKind) -> (out: usize)
    ensures
        out == last_of_kind(node_views(nodes@), kind) + 1,
        out <= nodes@.len(),
{
    let ghost all = node_views(nodes@);
    let mut i: usize = nodes.len();
    assert(all.take(i as int) =~= all);
    while i > 0 && nodes[i - 1].kind != kind
        invariant
            i <= nodes@.len(),
            all == node_views(nodes@),
            last_of_kind(all.take(i as int), kind) == last_of_kind(all, kind),
        decreases i,
    {
        proof {
            assert(all.take(i as int).drop_last() =~= all.take(i - 1));
            assert(all.take(i as int).last() == nodes@[i - 1].view());
        }
        i -= 1;
    }
    proof {
        if i > 0 {
            assert(all.take(i as int).last() == nodes@[i - 1].view());
        }
    }
    i
}

/// The number of nodes down to the innermost scope among the first `n`.
fn find_scope(nodes: &Vec<&SyntaxNode>, n: usize) -> (out: usize)
    requires
        n <= nodes@.len(),
    ensures
        out == scope_depth(node_views(nodes@).take(n as int)),
        out <= n,
{
    let ghost all = node_views(nodes@);
    let mut i: usize = n;
    while i > 0
        invariant
            i <= n <= nodes@.len(),
            all == node_views(nodes@),
            scope_depth(all.take(i as int)) == scope_depth(all.take(n as int)),
        decreases i,
    {
        proof {
            assert(all.take(i as int).drop_last() =~= all.take(i - 1));
            assert(all.take(i as int).last() == nodes@[i - 1].view());
        }
        match nodes[i - 1].kind {
            SyntaxKind::BLOCK | SyntaxKind::MODULE => {
                return i;
            },
            _ => {},
        }
        i -= 1;
    }
    i
}

/// The scope that the first `n` nodes of a path lead to.
pub(crate) fn scope_of_first<'a>(analyzer: &'a Analyzer, nodes: &Vec<&SyntaxNode>, n: usize) -> (out:
    ScopeSchema<'a>)
    requires
        n <= nodes@.len(),
    ensures
        out.view() == path_scope(analyzer.schema, node_views(nodes@).take(n as int)),
{
    let mut head: Vec<&SyntaxNode> = Vec::new();
    let mut i: usize = 0;
    while i < n
        invariant
            i <= n <= nodes@.len(),
            head@ == nodes@.take(i as int),
        decreases n - i,
    {
        head.push(nodes[i]);
        assert(head@ =~= nodes@.take(i + 1));
        i += 1;
    }
    assert(node_views(head@) =~= node_views(nodes@).take(n as int));
    scope_at(analyzer, &head)
}

fn after_equals(node: &SyntaxNode, at: i64) -> (yes: bool)
    ensures
        yes == equals_before(node.view().children, at as int, 0),
{
    let ghost all = views(node.children@);
    let mut i: usize = 0;
    while i < node.children.len()
        invariant
            i <= node.children@.len(),
            all == views(node.children@),
            equals_before(all, at as int, i as int) == equals_before(all, at as int, 0),
        decreases node.children@.len() - i,
    {
        assert(all[i as int] == node.children@[i as int].view());
        match &node.children[i] {
            SyntaxElement::Token(token) => {
                if token.kind == SyntaxKind::EQUALS && token.end as i64 <= at {
                    return true;
                }
            },
            SyntaxElement::Node(_) => {
                return false;
            },
        }
        i += 1;
    }
    false
}

fn on_header_line(node: &SyntaxNode, at: i64) -> (yes: bool)
    ensures
        yes == on_header(node.view().children, at as int, 0),
{
    let ghost all = views(node.children@);
    let mut i: usize = 0;
    while i < node.children.len()
        invariant
            i <= node.children@.len(),
            all == views(node.children@),
            on_header(all, at as int, i as int) == on_header(all, at as int, 0),
        decreases node.children@.len() - i,
    {
        assert(all[i as int] == node.children@[i as int].view());
        match &node.children[i] {
            SyntaxElement::Token(token) => {
                if token.kind == SyntaxKind::NEWLINE {
                    return at <= token.start as i64;
                }
            },
            SyntaxElement::Node(_) => {
                return true;
            },
        }
        i += 1;
    }
    true
}

fn count_ended(tokens: &Vec<&SyntaxToken>, at: i64) -> (count: usize)
    ensures
        count == ended_by(leaf_views(tokens@), at as int),
{
    let ghost all = leaf_views(tokens@);
    let mut count: usize = 0;
    let mut i: usize = 0;
    assert(all.take(0) =~= Seq::<LeafView>::empty());
    while i < tokens.len()
        invariant
            i <= tokens@.len(),
            count <= i,
            all == leaf_views(tokens@),
            count == ended_by(all.take(i as int), at as int),
        decreases tokens@.len() - i,
    {
        proof {
            assert(all.take(i + 1).drop_last() =~= all.take(i as int));
            assert(all.take(i + 1).last() == tokens@[i as int].view());
        }
        if tokens[i].end as i64 <= at {
            count += 1;
        }
        i += 1;
    }
    assert(all.take(i as int) =~= all);
    count
}

fn argument_type_of<'a>(scope: ScopeSchema<'a>, keyword: &str) -> (out: Option<&'a ValueType>)
    ensures
        match out {
            Some(ty) => argument_type(scope.view(), keyword@) == Some(*ty),
            None => argument_type(scope.view(), keyword@) is None,
        },
{
    match scope.sub_block(keyword) {
        Some(sub) => match &sub.argument_type {
            Some(ty) => Some(ty),
            None => None,
        },
        None => None,
    }
}

fn classify_module<'a>(analyzer: &'a Analyzer, nodes: &Vec<&SyntaxNode>, m: usize, at: i64) -> (out:
    PosContext<'a>)
    requires
        m < nodes@.len(),
    ensures
        out.view() == module_position(
            analyzer.schema,
            node_views(nodes@),
            m as int,
            at as int,
        ),
        match out {
            PosContext::FieldKey { depth } => depth <= nodes@.len(),
            PosContext::FieldValue { depth, .. } => depth <= nodes@.len(),
            _ => true,
        },
{
    let count = nodes.len();
    assert(m < count);
    let node = nodes[m];
    let inside = PosContext::FieldKey { depth: m + 1 };
    let slot = match Module(node).slot() {
        Some(slot) => slot,
        None => {
            return inside;
        },
    };
    if !on_header_line(node, at) {
        return inside;
    }
    let parent = scope_of_first(analyzer, nodes, m);
    if after_equals(node, at) {
        // After `=`: a module name if the slot is a real module slot of the
        // parent, else the argument of a sub-block.
        if let Some(known) = parent.slot(slot.text.as_str()) {
            return PosContext::ModuleName { slot: known };
        }
        if let Some(ty) = argument_type_of(parent, slot.text.as_str()) {
            return PosContext::SubBlockArg { ty };
        }
    } else if slot.end as i64 <= at {
        if let Some(ty) = argument_type_of(parent, slot.text.as_str()) {
            return PosContext::SubBlockArg { ty };
        }
    }
    inside
}

/// Classifies the cursor at byte `offset`, which `path` leads to.
pub fn classify_position<'a>(analyzer: &'a Analyzer, path: &Path, offset: u32) -> (out:
    PosContext<'a>)
    ensures
        out.view() == position_of(analyzer.schema, path.view(), offset as int),
        match out {
            PosContext::FieldKey { depth } => depth <= path.nodes@.len(),
            PosContext::FieldValue { depth, .. } => depth <= path.nodes@.len(),
            _ => true,
        },
{
    let at = offset as i64 - path.offset as i64;
    let count = path.nodes.len();
    let f = find_last(&path.nodes, SyntaxKind::FIELD);
    // On a field line: most common while typing `Key = value`.
    if f > 0 {
        let node = path.nodes[f - 1];
        let depth = find_scope(&path.nodes, f - 1);
        if after_equals(node, at) {
            let field = Field(node);
            let key = match field.key() {
                Some(key) => key.text.clone(),
                None => String::new(),
            };
            let value_index = count_ended(&field.value_tokens(), at);
            return PosContext::FieldValue { depth, key, value_index };
        }
        return if depth > 0 {
            PosContext::FieldKey { depth }
        } else {
            PosContext::TopLevel
        };
    }
    let m = find_last(&path.nodes, SyntaxKind::MODULE);
    if m > 0 {
        return classify_module(analyzer, &path.nodes, m - 1, at);
    }
    let b = find_last(&path.nodes, SyntaxKind::BLOCK);
    if b > 0 {
        let node = path.nodes[b - 1];
        if b == 1 && on_header_line(node, at) && !after_equals(node, at) {
            if let Some(keyword) = Block(node).keyword() {
                if at <= keyword.end as i64 {
                    return PosContext::TopLevel;
                }
            }
        }
        return PosContext::FieldKey { depth: b };
    }
    PosContext::TopLevel
}

} // verus!
