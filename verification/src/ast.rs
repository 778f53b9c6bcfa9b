//! Thin typed views over the syntax tree.
//!
//! These wrappers give access to the parts that matter (a block's keyword and
//! name, a field's key and value tokens, a module's slot and name) without
//! walking raw nodes. They are cheap handles; the tree owns the data.

use vstd::prelude::*;
use vstd::string::*;

use crate::kind::SyntaxKind;
use crate::tree::{
    views, ElementView, LeafView, NodeView, SyntaxElement, SyntaxNode, SyntaxToken,
};

verus! {

/// The tokens on the header line of a node: its leading tokens, up to the end
/// of the line or the first nested node.
pub open spec fn header(children: Seq<ElementView>) -> Seq<LeafView>
    decreases children.len(),
{
    if children.len() == 0 {
        Seq::empty()
    } else {
        match children[0] {
            ElementView::Token(leaf) => if leaf.kind == SyntaxKind::NEWLINE {
                Seq::empty()
            } else {
                seq![leaf] + header(children.drop_first())
            },
            ElementView::Node(_) => Seq::empty(),
        }
    }
}

/// The bare words of a token list.
pub open spec fn words(tokens: Seq<LeafView>) -> Seq<LeafView>
    decreases tokens.len(),
{
    if tokens.len() == 0 {
        Seq::empty()
    } else if tokens.last().kind == SyntaxKind::WORD {
        words(tokens.drop_last()).push(tokens.last())
    } else {
        words(tokens.drop_last())
    }
}

/// The words and strings of a token list, after its first word.
pub open spec fn values_after_key(tokens: Seq<LeafView>) -> Seq<LeafView>
    decreases tokens.len(),
{
    if tokens.len() == 0 {
        Seq::empty()
    } else if words(tokens.drop_last()).len() > 0 && (tokens.last().kind == SyntaxKind::WORD
        || tokens.last().kind == SyntaxKind::STRING) {
        values_after_key(tokens.drop_last()).push(tokens.last())
    } else {
        values_after_key(tokens.drop_last())
    }
}

/// Whether a token list holds an `=`.
pub open spec fn has_equals(tokens: Seq<LeafView>) -> bool
    decreases tokens.len(),
{
    tokens.len() > 0 && (has_equals(tokens.drop_last()) || tokens.last().kind
        == SyntaxKind::EQUALS)
}

/// The words of a token list that follow its first `=`.
pub open spec fn words_after_equals(tokens: Seq<LeafView>) -> Seq<LeafView>
    decreases tokens.len(),
{
    if tokens.len() == 0 {
        Seq::empty()
    } else if has_equals(tokens.drop_last()) && tokens.last().kind == SyntaxKind::WORD {
        words_after_equals(tokens.drop_last()).push(tokens.last())
    } else {
        words_after_equals(tokens.drop_last())
    }
}

/// Element `i` of a sequence, if there is one.
pub open spec fn nth<A>(s: Seq<A>, i: int) -> Option<A> {
    if 0 <= i < s.len() {
        Some(s[i])
    } else {
        None
    }
}

impl NodeView {
    /// The tokens on the header line.
    pub open spec fn header(self) -> Seq<LeafView> {
        header(self.children)
    }

    /// The first word of the header line.
    pub open spec fn head_word(self) -> Option<LeafView> {
        nth(words(self.header()), 0)
    }

    /// The second word of the header line.
    pub open spec fn second_word(self) -> Option<LeafView> {
        nth(words(self.header()), 1)
    }

    /// The words and strings after the first word of the header line.
    pub open spec fn values(self) -> Seq<LeafView> {
        values_after_key(self.header())
    }

    /// Word `i` after the `=` of the header line.
    pub open spec fn after_equals(self, i: int) -> Option<LeafView> {
        nth(words_after_equals(self.header()), i)
    }

    /// The direct child nodes.
    pub open spec fn nodes(self) -> Seq<NodeView> {
        child_nodes(self.children)
    }
}

/// The nodes of an element list.
pub open spec fn child_nodes(children: Seq<ElementView>) -> Seq<NodeView>
    decreases children.len(),
{
    if children.len() == 0 {
        Seq::empty()
    } else {
        match children.last() {
            ElementView::Node(node) => child_nodes(children.drop_last()).push(node),
            ElementView::Token(_) => child_nodes(children.drop_last()),
        }
    }
}

/// The nodes of one kind.
pub open spec fn of_kind(nodes: Seq<NodeView>, kind: SyntaxKind) -> Seq<NodeView>
    decreases nodes.len(),
{
    if nodes.len() == 0 {
        Seq::empty()
    } else if nodes.last().kind == kind {
        of_kind(nodes.drop_last(), kind).push(nodes.last())
    } else {
        of_kind(nodes.drop_last(), kind)
    }
}

/// The contents of an optional token.
pub open spec fn opt_leaf(token: Option<&SyntaxToken>) -> Option<LeafView> {
    match token {
        Some(token) => Some(token.view()),
        None => None,
    }
}

/// The contents of a list of tokens.
pub open spec fn leaf_views(tokens: Seq<&SyntaxToken>) -> Seq<LeafView> {
    Seq::new(tokens.len(), |i: int| tokens[i].view())
}

/// The contents of a list of nodes.
pub open spec fn node_views(nodes: Seq<&SyntaxNode>) -> Seq<NodeView> {
    Seq::new(nodes.len(), |i: int| nodes[i].view())
}

/// The tokens on the header line of `node`.
pub fn header_tokens(node: &SyntaxNode) -> (out: Vec<&SyntaxToken>)
    ensures
        leaf_views(out@) == node.view().header(),
{
    let mut out: Vec<&SyntaxToken> = Vec::new();
    let ghost all = views(node.children@);
    let mut i: usize = 0;
    proof {
        assert(all.skip(0) =~= all);
        assert(leaf_views(out@) + header(all) =~= header(all));
    }
    while i < node.children.len()
        invariant
            i <= node.children@.len(),
            all == views(node.children@),
            leaf_views(out@) + header(all.skip(i as int)) == header(all),
        decreases node.children@.len() - i,
    {
        proof {
            assert(all.skip(i as int).drop_first() =~= all.skip(i + 1));
            assert(all.skip(i as int)[0] == node.children@[i as int].view());
        }
        match &node.children[i] {
            SyntaxElement::Token(token) => {
                if token.kind == SyntaxKind::NEWLINE {
                    assert(leaf_views(out@) =~= header(all));
                    return out;
                }
                let ghost before = leaf_views(out@);
                out.push(token);
                proof {
                    assert(leaf_views(out@) =~= before.push(token.view()));
                    assert(leaf_views(out@) + header(all.skip(i + 1)) =~= before + header(
                        all.skip(i as int),
                    ));
                }
            },
            SyntaxElement::Node(_) => {
                assert(leaf_views(out@) =~= header(all));
                return out;
            },
        }
        i += 1;
    }
    proof {
        assert(all.skip(i as int) =~= Seq::<ElementView>::empty());
        assert(leaf_views(out@) =~= header(all));
    }
    out
}

/// Word `n` of the header line.
fn header_word(node: &SyntaxNode, n: usize) -> (out: Option<&SyntaxToken>)
    ensures
        opt_leaf(out) == nth(words(node.view().header()), n as int),
{
    let tokens = header_tokens(node);
    let ghost all = node.view().header();
    let mut seen: usize = 0;
    let mut i: usize = 0;
    proof {
        assert(all.take(0) =~= Seq::<LeafView>::empty());
    }
    while i < tokens.len()
        invariant
            i <= tokens@.len(),
            all == leaf_views(tokens@),
            all == node.view().header(),
            seen == words(all.take(i as int)).len(),
            seen <= n,
            seen <= i,
        decreases tokens@.len() - i,
    {
        proof {
            assert(all.take(i + 1).drop_last() =~= all.take(i as int));
            assert(all.take(i + 1).last() == tokens@[i as int].view());
        }
        if tokens[i].kind == SyntaxKind::WORD {
            if seen == n {
                proof {
                    lemma_words_prefix(all, i + 1, n as int);
                }
                return Some(tokens[i]);
            }
            seen += 1;
        }
        i += 1;
    }
    assert(all.take(i as int) =~= all);
    None
}

proof fn lemma_words_prefix(all: Seq<LeafView>, i: int, k: int)
    requires
        0 <= i <= all.len(),
        0 <= k < words(all.take(i)).len(),
    ensures
        k < words(all).len(),
        words(all)[k] == words(all.take(i))[k],
    decreases all.len() - i,
{
    if i == all.len() {
        assert(all.take(i) =~= all);
    } else {
        assert(all.take(i + 1).drop_last() =~= all.take(i));
        lemma_words_prefix(all, i + 1, k);
    }
}

/// The words and strings after the first word of the header line.
pub fn header_value_tokens(node: &SyntaxNode) -> (out: Vec<&SyntaxToken>)
    ensures
        leaf_views(out@) == node.view().values(),
{
    let tokens = header_tokens(node);
    let ghost all = node.view().header();
    let mut out: Vec<&SyntaxToken> = Vec::new();
    let mut seen_key = false;
    let mut i: usize = 0;
    proof {
        assert(all.take(0) =~= Seq::<LeafView>::empty());
        assert(leaf_views(out@) =~= Seq::<LeafView>::empty());
    }
    while i < tokens.len()
        invariant
            i <= tokens@.len(),
            all == leaf_views(tokens@),
            seen_key == (words(all.take(i as int)).len() > 0),
            leaf_views(out@) == values_after_key(all.take(i as int)),
        decreases tokens@.len() - i,
    {
        let token = tokens[i];
        proof {
            assert(all.take(i + 1).drop_last() =~= all.take(i as int));
            assert(all.take(i + 1).last() == token.view());
        }
        let ghost before = leaf_views(out@);
        if seen_key && (token.kind == SyntaxKind::WORD || token.kind == SyntaxKind::STRING) {
            out.push(token);
            assert(leaf_views(out@) =~= before.push(token.view()));
        }
        if token.kind == SyntaxKind::WORD {
            seen_key = true;
        }
        i += 1;
    }
    assert(all.take(i as int) =~= all);
    out
}

proof fn lemma_after_equals_prefix(all: Seq<LeafView>, i: int, k: int)
    requires
        0 <= i <= all.len(),
        0 <= k < words_after_equals(all.take(i)).len(),
    ensures
        k < words_after_equals(all).len(),
        words_after_equals(all)[k] == words_after_equals(all.take(i))[k],
    decreases all.len() - i,
{
    if i == all.len() {
        assert(all.take(i) =~= all);
    } else {
        assert(all.take(i + 1).drop_last() =~= all.take(i));
        lemma_after_equals_prefix(all, i + 1, k);
    }
}

/// Word `n` after the `=` of the header line.
fn word_after_equals(node: &SyntaxNode, n: usize) -> (out: Option<&SyntaxToken>)
    ensures
        opt_leaf(out) == node.view().after_equals(n as int),
{
    let tokens = header_tokens(node);
    let ghost all = node.view().header();
    let mut seen_equals = false;
    let mut seen: usize = 0;
    let mut i: usize = 0;
    proof {
        assert(all.take(0) =~= Seq::<LeafView>::empty());
    }
    while i < tokens.len()
        invariant
            i <= tokens@.len(),
            all == leaf_views(tokens@),
            all == node.view().header(),
            seen_equals == has_equals(all.take(i as int)),
            seen == words_after_equals(all.take(i as int)).len(),
            seen <= n,
            seen <= i,
        decreases tokens@.len() - i,
    {
        let token = tokens[i];
        proof {
            assert(all.take(i + 1).drop_last() =~= all.take(i as int));
            assert(all.take(i + 1).last() == token.view());
        }
        if seen_equals && token.kind == SyntaxKind::WORD {
            if seen == n {
                proof {
                    lemma_after_equals_prefix(all, i + 1, n as int);
                }
                return Some(token);
            }
            seen += 1;
        }
        if token.kind == SyntaxKind::EQUALS {
            seen_equals = true;
        }
        i += 1;
    }
    assert(all.take(i as int) =~= all);
    None
}

/// The direct child nodes of `node`.
pub fn nodes_in(node: &SyntaxNode) -> (out: Vec<&SyntaxNode>)
    ensures
        node_views(out@) == node.view().nodes(),
{
    let mut out: Vec<&SyntaxNode> = Vec::new();
    let ghost all = views(node.children@);
    let mut i: usize = 0;
    proof {
        assert(all.take(0) =~= Seq::<ElementView>::empty());
        assert(node_views(out@) =~= Seq::<NodeView>::empty());
    }
    while i < node.children.len()
        invariant
            i <= node.children@.len(),
            all == views(node.children@),
            node_views(out@) == child_nodes(all.take(i as int)),
        decreases node.children@.len() - i,
    {
        proof {
            assert(all.take(i + 1).drop_last() =~= all.take(i as int));
            assert(all.take(i + 1).last() == node.children@[i as int].view());
        }
        let ghost before = node_views(out@);
        match &node.children[i] {
            SyntaxElement::Node(child) => {
                out.push(child);
                assert(node_views(out@) =~= before.push(child.view()));
            },
            SyntaxElement::Token(_) => {},
        }
        i += 1;
    }
    assert(all.take(i as int) =~= all);
    out
}

/// The direct child nodes of one kind.
fn nodes_of_kind(node: &SyntaxNode, kind: SyntaxKind) -> (out: Vec<&SyntaxNode>)
    ensures
        node_views(out@) == of_kind(node.view().nodes(), kind),
{
    let nodes = nodes_in(node);
    let ghost all = node.view().nodes();
    let mut out: Vec<&SyntaxNode> = Vec::new();
    let mut i: usize = 0;
    proof {
        assert(all.take(0) =~= Seq::<NodeView>::empty());
        assert(node_views(out@) =~= Seq::<NodeView>::empty());
    }
    while i < nodes.len()
        invariant
            i <= nodes@.len(),
            all == node_views(nodes@),
            node_views(out@) == of_kind(all.take(i as int), kind),
        decreases nodes@.len() - i,
    {
        proof {
            assert(all.take(i + 1).drop_last() =~= all.take(i as int));
            assert(all.take(i + 1).last() == nodes@[i as int].view());
        }
        let ghost before = node_views(out@);
        if nodes[i].kind == kind {
            out.push(nodes[i]);
            assert(node_views(out@) =~= before.push(nodes@[i as int].view()));
        }
        i += 1;
    }
    assert(all.take(i as int) =~= all);
    out
}

/// A top-level block, e.g. `Weapon AK47 ... End`.
#[derive(Debug, Clone, Copy)]
pub struct Block<'a>(pub &'a SyntaxNode);

/// A nested module or sub-block, e.g. `Behavior = PhysicsBehavior ModuleTag_02`.
#[derive(Debug, Clone, Copy)]
pub struct Module<'a>(pub &'a SyntaxNode);

/// A single `Key = value [value...]` line.
#[derive(Debug, Clone, Copy)]
pub struct Field<'a>(pub &'a SyntaxNode);

pub open spec fn field_views(fields: Seq<Field<'_>>) -> Seq<NodeView> {
    Seq::new(fields.len(), |i: int| fields[i].0.view())
}

pub open spec fn module_views(modules: Seq<Module<'_>>) -> Seq<NodeView> {
    Seq::new(modules.len(), |i: int| modules[i].0.view())
}

fn as_fields<'a>(nodes: Vec<&'a SyntaxNode>) -> (out: Vec<Field<'a>>)
    ensures
        field_views(out@) == node_views(nodes@),
{
    let mut out: Vec<Field<'a>> = Vec::new();
    let mut i: usize = 0;
    while i < nodes.len()
        invariant
            i <= nodes@.len(),
            field_views(out@) == node_views(nodes@).take(i as int),
        decreases nodes@.len() - i,
    {
        let ghost before = field_views(out@);
        out.push(Field(nodes[i]));
        proof {
            assert(field_views(out@) =~= before.push(nodes@[i as int].view()));
            assert(node_views(nodes@).take(i + 1) =~= before.push(nodes@[i as int].view()));
        }
        i += 1;
    }
    assert(node_views(nodes@).take(i as int) =~= node_views(nodes@));
    out
}

fn as_modules<'a>(nodes: Vec<&'a SyntaxNode>) -> (out: Vec<Module<'a>>)
    ensures
        module_views(out@) == node_views(nodes@),
{
    let mut out: Vec<Module<'a>> = Vec::new();
    let mut i: usize = 0;
    while i < nodes.len()
        invariant
            i <= nodes@.len(),
            module_views(out@) == node_views(nodes@).take(i as int),
        decreases nodes@.len() - i,
    {
        let ghost before = module_views(out@);
        out.push(Module(nodes[i]));
        proof {
            assert(module_views(out@) =~= before.push(nodes@[i as int].view()));
            assert(node_views(nodes@).take(i + 1) =~= before.push(nodes@[i as int].view()));
        }
        i += 1;
    }
    assert(node_views(nodes@).take(i as int) =~= node_views(nodes@));
    out
}

impl<'a> Block<'a> {
    pub fn cast(node: &'a SyntaxNode) -> (out: Option<Self>)
        ensures
            out is Some == (node.kind == SyntaxKind::BLOCK),
            out is Some ==> (out->0).0 == node,
    {
        if node.kind == SyntaxKind::BLOCK {
            Some(Block(node))
        } else {
            None
        }
    }

    /// The block keyword token (`Weapon`).
    pub fn keyword(&self) -> (out: Option<&'a SyntaxToken>)
        ensures
            opt_leaf(out) == self.0.view().head_word(),
    {
        header_word(self.0, 0)
    }

    /// The block name token (`AK47`), i.e. the second header word, if present.
    pub fn name(&self) -> (out: Option<&'a SyntaxToken>)
        ensures
            opt_leaf(out) == self.0.view().second_word(),
    {
        header_word(self.0, 1)
    }

    pub fn fields(&self) -> (out: Vec<Field<'a>>)
        ensures
            field_views(out@) == of_kind(self.0.view().nodes(), SyntaxKind::FIELD),
    {
        as_fields(nodes_of_kind(self.0, SyntaxKind::FIELD))
    }

    pub fn modules(&self) -> (out: Vec<Module<'a>>)
        ensures
            module_views(out@) == of_kind(self.0.view().nodes(), SyntaxKind::MODULE),
    {
        as_modules(nodes_of_kind(self.0, SyntaxKind::MODULE))
    }
}

impl<'a> Module<'a> {
    pub fn cast(node: &'a SyntaxNode) -> (out: Option<Self>)
        ensures
            out is Some == (node.kind == SyntaxKind::MODULE),
            out is Some ==> (out->0).0 == node,
    {
        if node.kind == SyntaxKind::MODULE {
            Some(Module(node))
        } else {
            None
        }
    }

    /// The slot / sub-block keyword (`Behavior`, `ConditionState`, ...).
    pub fn slot(&self) -> (out: Option<&'a SyntaxToken>)
        ensures
            opt_leaf(out) == self.0.view().head_word(),
    {
        header_word(self.0, 0)
    }

    /// The module type name following `=` (`PhysicsBehavior`).
    pub fn module_name(&self) -> (out: Option<&'a SyntaxToken>)
        ensures
            opt_leaf(out) == self.0.view().after_equals(0),
    {
        word_after_equals(self.0, 0)
    }

    /// The module tag following the module name (`ModuleTag_01`), i.e. the
    /// second word after `=`.
    pub fn tag(&self) -> (out: Option<&'a SyntaxToken>)
        ensures
            opt_leaf(out) == self.0.view().after_equals(1),
    {
        word_after_equals(self.0, 1)
    }

    /// Header arguments after the slot keyword, with or without `=`.
    pub fn argument_tokens(&self) -> (out: Vec<&'a SyntaxToken>)
        ensures
            leaf_views(out@) == self.0.view().values(),
    {
        header_value_tokens(self.0)
    }

    pub fn fields(&self) -> (out: Vec<Field<'a>>)
        ensures
            field_views(out@) == of_kind(self.0.view().nodes(), SyntaxKind::FIELD),
    {
        as_fields(nodes_of_kind(self.0, SyntaxKind::FIELD))
    }

    pub fn modules(&self) -> (out: Vec<Module<'a>>)
        ensures
            module_views(out@) == of_kind(self.0.view().nodes(), SyntaxKind::MODULE),
    {
        as_modules(nodes_of_kind(self.0, SyntaxKind::MODULE))
    }
}

impl<'a> Field<'a> {
    pub fn cast(node: &'a SyntaxNode) -> (out: Option<Self>)
        ensures
            out is Some == (node.kind == SyntaxKind::FIELD),
            out is Some ==> (out->0).0 == node,
    {
        if node.kind == SyntaxKind::FIELD {
            Some(Field(node))
        } else {
            None
        }
    }

    /// The field key token (left of `=`).
    pub fn key(&self) -> (out: Option<&'a SyntaxToken>)
        ensures
            opt_leaf(out) == self.0.view().head_word(),
    {
        header_word(self.0, 0)
    }

    /// The value tokens after the key, in order. `=` is just another
    /// separator, so `RemoveModule ModuleTag_01` carries a value exactly like
    /// `Key = Value` does.
    pub fn value_tokens(&self) -> (out: Vec<&'a SyntaxToken>)
        ensures
            leaf_views(out@) == self.0.view().values(),
    {
        header_value_tokens(self.0)
    }
}

} // verus!
