//! The lossless syntax tree.
//!
//! A document is a list of top-level elements. Offsets inside an element are
//! relative to the start of the top-level element it belongs to, so an element
//! stays the same when text above it changes.

use std::sync::Arc;

use vstd::prelude::*;
use vstd::string::*;

use crate::kind::SyntaxKind;

verus! {

/// The contents of a token of the tree.
#[verifier::ext_equal]
pub struct LeafView {
    pub kind: SyntaxKind,
    pub text: Seq<char>,
    pub start: int,
    pub end: int,
}

/// The contents of a node of the tree.
#[verifier::ext_equal]
pub struct NodeView {
    pub kind: SyntaxKind,
    pub start: int,
    pub end: int,
    pub children: Seq<ElementView>,
}

/// The contents of a node or token of the tree.
#[verifier::ext_equal]
pub enum ElementView {
    Node(NodeView),
    Token(LeafView),
}

/// A token of the tree: its kind, its text, and its byte range.
#[derive(Debug)]
pub struct SyntaxToken {
    pub kind: SyntaxKind,
    pub text: String,
    pub start: u32,
    pub end: u32,
}

/// A composite node of the tree.
#[derive(Debug)]
pub struct SyntaxNode {
    pub kind: SyntaxKind,
    pub start: u32,
    pub end: u32,
    pub children: Vec<SyntaxElement>,
}

/// A node or a token.
#[derive(Debug)]
pub enum SyntaxElement {
    Node(SyntaxNode),
    Token(SyntaxToken),
}

impl SyntaxToken {
    pub open spec fn view(&self) -> LeafView {
        LeafView {
            kind: self.kind,
            text: self.text@,
            start: self.start as int,
            end: self.end as int,
        }
    }
}

pub open spec fn views(s: Seq<SyntaxElement>) -> Seq<ElementView>
    decreases s,
{
    Seq::new(
        s.len(),
        |i: int|
            if 0 <= i < s.len() {
                s[i].view()
            } else {
                arbitrary()
            },
    )
}

impl SyntaxNode {
    pub open spec fn view(&self) -> NodeView
        decreases self,
    {
        NodeView {
            kind: self.kind,
            start: self.start as int,
            end: self.end as int,
            children: views(self.children@),
        }
    }
}

impl SyntaxElement {
    pub open spec fn view(&self) -> ElementView
        decreases self,
    {
        match self {
            SyntaxElement::Node(n) => ElementView::Node(n.view()),
            SyntaxElement::Token(t) => ElementView::Token(t.view()),
        }
    }

    /// Whether the element is a node (and not a token).
    pub fn is_node(&self) -> (yes: bool)
        ensures
            yes == (self.view() is Node),
    {
        match self {
            SyntaxElement::Node(_) => true,
            SyntaxElement::Token(_) => false,
        }
    }
}

/// The text of an element: the texts of its tokens, in order.
pub open spec fn element_text(e: ElementView) -> Seq<char>
    decreases e,
{
    match e {
        ElementView::Token(leaf) => leaf.text,
        ElementView::Node(node) => elements_text(node.children),
    }
}

/// The concatenated texts of a list of elements.
pub open spec fn elements_text(s: Seq<ElementView>) -> Seq<char>
    decreases s,
{
    if s.len() == 0 {
        Seq::empty()
    } else {
        elements_text(s.drop_last()) + element_text(s.last())
    }
}

/// Adds the text of a node behind `out`.
pub(crate) fn push_text(node: &SyntaxNode, out: &mut String)
    ensures
        final(out)@ == old(out)@ + elements_text(node.view().children),
    decreases node,
{
    let ghost all = views(node.children@);
    let ghost before = out@;
    let mut i: usize = 0;
    assert(all.take(0) =~= Seq::<ElementView>::empty());
    assert(before + elements_text(all.take(0)) =~= before);
    while i < node.children.len()
        invariant
            i <= node.children@.len(),
            all == views(node.children@),
            out@ == before + elements_text(all.take(i as int)),
        decreases node.children@.len() - i,
    {
        let ghost known = out@;
        proof {
            assert(all.take(i + 1).drop_last() =~= all.take(i as int));
            assert(all.take(i + 1).last() == node.children@[i as int].view());
            assert(decreases_to!(node => node.children));
            assert(decreases_to!(node.children@ => node.children@[i as int]));
        }
        match &node.children[i] {
            SyntaxElement::Node(child) => {
                assert(decreases_to!(node.children@[i as int] => node.children@[i as int]->Node_0));
                push_text(child, out);
            },
            SyntaxElement::Token(token) => {
                out.append(&token.text);
            },
        }
        assert(out@ == known + element_text(all[i as int]));
        assert(out@ =~= before + elements_text(all.take(i + 1)));
        i += 1;
    }
    assert(all.take(i as int) =~= all);
}

/// The text of a node.
pub fn node_text(node: &SyntaxNode) -> (out: String)
    ensures
        out@ == elements_text(node.view().children),
{
    let mut out = String::new();
    push_text(node, &mut out);
    assert(out@ =~= elements_text(node.view().children));
    out
}

/// `Arc::clone`: another handle to the same allocation, hence the same value.
#[verifier::external_body]
pub(crate) fn share<T>(value: &Arc<T>) -> (out: Arc<T>)
    ensures
        out == *value,
{
    Arc::clone(value)
}

/// `Arc::ptr_eq`: true only when both handles point to one allocation, hence
/// to the same value. Nothing is claimed when it is false: which values share
/// an allocation is not a function of the values.
#[verifier::external_body]
pub(crate) fn shared(a: &Arc<SyntaxElement>, b: &Arc<SyntaxElement>) -> (one: bool)
    ensures
        one ==> *a == *b,
{
    Arc::ptr_eq(a, b)
}

} // verus!
