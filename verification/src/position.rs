//! What lies at a byte offset: the path of nodes down to a token.

use vstd::prelude::*;

use crate::ast::{node_views, opt_leaf};
use crate::layout::{
    extent, lemma_document_at, lemma_tiled_at, parse_tiles_the_text, tiled, well_placed,
};
use crate::parser::{child_views, parse_text, ChildView, OpenerOracle, Parse};
use crate::text::blen;
use crate::tree::{
    views, ElementView, LeafView, NodeView, SyntaxElement, SyntaxNode, SyntaxToken,
};

verus! {

/// Which of two adjacent elements an offset between them belongs to.
#[derive(Debug, Clone, Copy, PartialEq, Eq, Structural)]
pub enum Bias {
    Left,
    Right,
}

/// Whether an element that ends at `end` reaches `at`.
pub open spec fn reaches(end: int, at: int, bias: Bias) -> bool {
    match bias {
        Bias::Left => at <= end,
        Bias::Right => at < end,
    }
}

/// The first element, from `i` on, that reaches `at`; or the last one.
pub open spec fn pick(elements: Seq<ElementView>, at: int, bias: Bias, i: int) -> int
    decreases elements.len() - i,
{
    if i + 1 >= elements.len() || reaches(extent(elements[i]).1, at, bias) {
        i
    } else {
        pick(elements, at, bias, i + 1)
    }
}

/// The first top-level element, from `i` on, that reaches `at`; or the last.
pub open spec fn pick_child(children: Seq<ChildView>, at: int, bias: Bias, i: int) -> int
    decreases children.len() - i,
{
    if i + 1 >= children.len() || reaches(
        children[i].offset + extent(children[i].element).1,
        at,
        bias,
    ) {
        i
    } else {
        pick_child(children, at, bias, i + 1)
    }
}

/// The nodes around an offset, outermost first, and the token there. Ranges
/// inside are relative to `offset`, where the top-level element starts.
#[verifier::ext_equal]
pub struct PathView {
    pub offset: int,
    pub nodes: Seq<NodeView>,
    pub token: Option<LeafView>,
}

pub open spec fn element_path(e: ElementView, at: int, bias: Bias, acc: PathView) -> PathView
    decreases e,
{
    match e {
        ElementView::Token(leaf) => PathView { token: Some(leaf), ..acc },
        ElementView::Node(node) => {
            let inside = PathView { nodes: acc.nodes.push(node), ..acc };
            let i = pick(node.children, at, bias, 0);
            if 0 <= i < node.children.len() {
                element_path(node.children[i], at, bias, inside)
            } else {
                inside
            }
        },
    }
}

/// The path to `offset` in a document of `len` bytes.
pub open spec fn path_of(children: Seq<ChildView>, len: int, offset: int, bias: Bias) -> PathView {
    let at = if offset < len {
        offset
    } else {
        len
    };
    let i = pick_child(children, at, bias, 0);
    if 0 <= i < children.len() {
        let child = children[i];
        let inner = if child.offset <= at {
            at - child.offset
        } else {
            0
        };
        element_path(
            child.element,
            inner,
            bias,
            PathView { offset: child.offset, nodes: Seq::empty(), token: None },
        )
    } else {
        PathView { offset: 0, nodes: Seq::empty(), token: None }
    }
}

/// The nodes around an offset, outermost first, and the token there.
pub struct Path<'a> {
    pub offset: u32,
    pub nodes: Vec<&'a SyntaxNode>,
    pub token: Option<&'a SyntaxToken>,
}

impl<'a> Path<'a> {
    pub open spec fn view(&self) -> PathView {
        PathView {
            offset: self.offset as int,
            nodes: node_views(self.nodes@),
            token: opt_leaf(self.token),
        }
    }
}

fn end_of(element: &SyntaxElement) -> (end: u32)
    ensures
        end == extent(element.view()).1,
{
    match element {
        SyntaxElement::Node(node) => node.end,
        SyntaxElement::Token(token) => token.end,
    }
}

fn reaching(end: u64, at: u32, bias: Bias) -> (yes: bool)
    ensures
        yes == reaches(end as int, at as int, bias),
{
    match bias {
        Bias::Left => at as u64 <= end,
        Bias::Right => (at as u64) < end,
    }
}

proof fn lemma_pick(elements: Seq<ElementView>, at: int, bias: Bias, i: int)
    requires
        0 <= i,
        elements.len() > 0 ==> i < elements.len(),
    ensures
        elements.len() > 0 ==> i <= pick(elements, at, bias, i) < elements.len(),
        forall|k: int| #![trigger elements[k]]
            i <= k < pick(elements, at, bias, i) ==> !reaches(extent(elements[k]).1, at, bias),
        elements.len() > 0 ==> pick(elements, at, bias, i) == elements.len() - 1 || reaches(
            extent(elements[pick(elements, at, bias, i)]).1,
            at,
            bias,
        ),
    decreases elements.len() - i,
{
    if i + 1 < elements.len() && !reaches(extent(elements[i]).1, at, bias) {
        lemma_pick(elements, at, bias, i + 1);
    }
}

proof fn lemma_pick_child(children: Seq<ChildView>, at: int, bias: Bias, i: int)
    requires
        0 <= i < children.len(),
    ensures
        i <= pick_child(children, at, bias, i) < children.len(),
        forall|k: int| #![trigger children[k]]
            i <= k < pick_child(children, at, bias, i) ==> !reaches(
                children[k].offset + extent(children[k].element).1,
                at,
                bias,
            ),
        pick_child(children, at, bias, i) == children.len() - 1 || reaches(
            children[pick_child(children, at, bias, i)].offset + extent(
                children[pick_child(children, at, bias, i)].element,
            ).1,
            at,
            bias,
        ),
    decreases children.len() - i,
{
    if i + 1 < children.len() && !reaches(
        children[i].offset + extent(children[i].element).1,
        at,
        bias,
    ) {
        lemma_pick_child(children, at, bias, i + 1);
    }
}

fn descend<'a>(node: &'a SyntaxNode, at: u32, bias: Bias, path: &mut Path<'a>)
    ensures
        final(path).view() == element_path(
            ElementView::Node(node.view()),
            at as int,
            bias,
            old(path).view(),
        ),
    decreases node,
{
    let ghost before = path.view();
    path.nodes.push(node);
    let ghost inside = PathView { nodes: before.nodes.push(node.view()), ..before };
    assert(path.view() =~= inside) by {
        assert(node_views(path.nodes@) =~= before.nodes.push(node.view()));
    }
    let ghost all = views(node.children@);
    if node.children.len() == 0 {
        return ;
    }
    let mut i: usize = 0;
    while node.children.len() - i > 1 && !reaching(end_of(&node.children[i]) as u64, at, bias)
        invariant
            i < node.children@.len(),
            all == views(node.children@),
            pick(all, at as int, bias, i as int) == pick(all, at as int, bias, 0),
        decreases node.children@.len() - i,
    {
        i += 1;
    }
    assert(i == pick(all, at as int, bias, 0));
    proof {
        assert(decreases_to!(node => node.children));
        assert(decreases_to!(node.children@ => node.children@[i as int]));
    }
    match &node.children[i] {
        SyntaxElement::Node(child) => {
            assert(decreases_to!(node.children@[i as int] => node.children@[i as int]->Node_0));
            descend(child, at, bias, path);
        },
        SyntaxElement::Token(token) => {
            path.token = Some(token);
        },
    }
    assert(path.view() == element_path(all[i as int], at as int, bias, inside));
}

/// The path to a byte offset; past the end, to the end.
pub fn path_at<'a>(parse: &'a Parse, offset: u32, bias: Bias) -> (out: Path<'a>)
    ensures
        out.view() == path_of(
            child_views(parse.children@),
            parse.len as int,
            offset as int,
            bias,
        ),
{
    let ghost all = child_views(parse.children@);
    let at = if offset < parse.len {
        offset
    } else {
        parse.len
    };
    let mut path = Path { offset: 0, nodes: Vec::new(), token: None };
    assert(node_views(path.nodes@) =~= Seq::<NodeView>::empty());
    if parse.children.len() == 0 {
        return path;
    }
    let mut i: usize = 0;
    while parse.children.len() - i > 1 && !reaching(
        parse.children[i].offset as u64 + end_of(&parse.children[i].element) as u64,
        at,
        bias,
    )
        invariant
            i < parse.children@.len(),
            all == child_views(parse.children@),
            pick_child(all, at as int, bias, i as int) == pick_child(all, at as int, bias, 0),
        decreases parse.children@.len() - i,
    {
        i += 1;
    }
    let child = &parse.children[i];
    assert(all[i as int] == child.view());
    path.offset = child.offset;
    let inner = if child.offset <= at {
        at - child.offset
    } else {
        0
    };
    let element: &'a SyntaxElement = &child.element;
    match element {
        SyntaxElement::Node(node) => {
            descend(node, inner, bias, &mut path);
        },
        SyntaxElement::Token(token) => {
            path.token = Some(token);
        },
    }
    path
}

proof fn lemma_element_path(e: ElementView, at: int, bias: Bias, acc: PathView)
    requires
        well_placed(e),
        extent(e).0 <= at < extent(e).1 || (bias == Bias::Left && at == extent(e).1),
    ensures
        element_path(e, at, bias, acc).offset == acc.offset,
        element_path(e, at, bias, acc).token is Some,
        ({
            let token = element_path(e, at, bias, acc).token->0;
            &&& extent(e).0 <= token.start <= at <= token.end <= extent(e).1
            &&& bias == Bias::Right ==> at < token.end
            &&& bias == Bias::Left ==> token.start < at || at == extent(e).0
            &&& token.end == token.start + blen(token.text)
        }),
    decreases e,
{
    if let ElementView::Node(node) = e {
        let inside = PathView { nodes: acc.nodes.push(node), ..acc };
        let i = pick(node.children, at, bias, 0);
        if node.children.len() == 0 {
            assert(tiled(node.children, node.start, node.end));
            assert(false);
        }
        lemma_pick(node.children, at, bias, 0);
        lemma_tiled_at(node.children, node.start, node.end, i);
        if i > 0 {
            lemma_tiled_at(node.children, node.start, node.end, i - 1);
            assert(!reaches(extent(node.children[i - 1]).1, at, bias));
        }
        lemma_element_path(node.children[i], at, bias, inside);
    }
}

/// Law: in a non-empty parsed text, the token found at an offset is the one
/// that covers it: with a bias to the right the token that begins at or before
/// the offset and ends after it, with a bias to the left the one that begins
/// before it and ends at or after it (at the start of the text, the first).
pub proof fn path_ends_at_the_covering_token<O: OpenerOracle>(
    oracle: O,
    text: Seq<char>,
    offset: int,
    bias: Bias,
)
    requires
        0 <= offset < blen(text) || (bias == Bias::Left && 0 <= offset <= blen(text) && blen(text)
            > 0),
    ensures
        ({
            let path = path_of(
                parse_text(oracle, text).children,
                blen(text) as int,
                offset,
                bias,
            );
            &&& path.token is Some
            &&& bias == Bias::Right ==> path.offset + path.token->0.start <= offset < path.offset
                + path.token->0.end
            &&& bias == Bias::Left ==> path.offset + path.token->0.start < offset <= path.offset
                + path.token->0.end || (offset == 0 && path.offset + path.token->0.start == 0)
        }),
{
    let children = parse_text(oracle, text).children;
    let len = blen(text) as int;
    parse_tiles_the_text(oracle, text);
    assert(children.len() > 0);
    let i = pick_child(children, offset, bias, 0);
    lemma_pick_child(children, offset, bias, 0);
    lemma_document_at(children, len, i);
    if i > 0 {
        lemma_document_at(children, len, i - 1);
        assert(!reaches(
            children[i - 1].offset + extent(children[i - 1].element).1,
            offset,
            bias,
        ));
    }
    lemma_element_path(
        children[i].element,
        offset - children[i].offset,
        bias,
        PathView { offset: children[i].offset, nodes: Seq::empty(), token: None },
    );
}

} // verus!
