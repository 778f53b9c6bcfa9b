//! The syntax tree as a rowan green tree, for consumers that work on one.
//!
//! A green tree is described by the calls that build it: a node is opened,
//! filled with tokens and nodes, and closed again.

use vstd::prelude::*;
use vstd::string::*;

use crate::kind::SyntaxKind;
use crate::lossless::document_text;
use crate::parser::{child_views, ChildView, Parse};
use crate::text::{blen, lemma_encode_concat};
use crate::tree::{element_text, elements_text, views, ElementView, SyntaxElement};

verus! {

#[verifier::external_type_specification]
#[verifier::external_body]
pub struct ExGreenNode(rowan::GreenNode);

#[verifier::external_type_specification]
#[verifier::external_body]
pub struct ExGreenNodeBuilder<'cache>(rowan::GreenNodeBuilder<'cache>);

/// One step of building a green tree.
pub enum GreenEvent {
    Start(u16),
    Token(u16, Seq<char>),
    Finish,
}

/// The steps that a builder has been given.
pub uninterp spec fn builder_events(builder: rowan::GreenNodeBuilder<'static>) -> Seq<GreenEvent>;

/// The steps that build a green tree, in document order.
pub uninterp spec fn green_events(node: rowan::GreenNode) -> Seq<GreenEvent>;

/// How many nodes are open after the first `i` steps.
pub open spec fn open_nodes(events: Seq<GreenEvent>, i: int) -> int
    decreases i,
{
    if i <= 0 {
        0
    } else {
        open_nodes(events, i - 1) + match events[i - 1] {
            GreenEvent::Start(_) => 1int,
            GreenEvent::Token(_, _) => 0int,
            GreenEvent::Finish => -1int,
        }
    }
}

/// The steps build exactly one node: it is opened first and closed last.
pub open spec fn one_tree(events: Seq<GreenEvent>) -> bool {
    &&& events.len() > 0
    &&& events[0] is Start
    &&& open_nodes(events, events.len() as int) == 0
    &&& forall|i: int| 0 < i < events.len() ==> #[trigger] open_nodes(events, i) > 0
}

/// The text of the tokens in a list of steps.
pub open spec fn events_text(events: Seq<GreenEvent>) -> Seq<char>
    decreases events.len(),
{
    if events.len() == 0 {
        Seq::empty()
    } else {
        events_text(events.drop_last()) + match events.last() {
            GreenEvent::Token(_, text) => text,
            _ => Seq::empty(),
        }
    }
}

/// `rowan::GreenNodeBuilder::new`: a builder that has been given no step.
#[verifier::external_body]
fn new_builder() -> (builder: rowan::GreenNodeBuilder<'static>)
    ensures
        builder_events(builder) == Seq::<GreenEvent>::empty(),
{
    rowan::GreenNodeBuilder::new()
}

/// `rowan::GreenNodeBuilder::start_node`: opens a node of the given kind.
#[verifier::external_body]
fn start_node(builder: &mut rowan::GreenNodeBuilder<'static>, kind: u16)
    ensures
        builder_events(*final(builder)) == builder_events(*old(builder)).push(
            GreenEvent::Start(kind),
        ),
{
    builder.start_node(rowan::SyntaxKind(kind))
}

/// `rowan::GreenNodeBuilder::token`: adds a token to the open node. Text sizes
/// are 32-bit, so the text so far has to stay below that.
#[verifier::external_body]
fn add_token(builder: &mut rowan::GreenNodeBuilder<'static>, kind: u16, text: &str)
    requires
        blen(events_text(builder_events(*old(builder)))) + blen(text@) <= u32::MAX,
    ensures
        builder_events(*final(builder)) == builder_events(*old(builder)).push(
            GreenEvent::Token(kind, text@),
        ),
{
    builder.token(rowan::SyntaxKind(kind), text)
}

/// `rowan::GreenNodeBuilder::finish_node`: closes the innermost open node; there
/// has to be one.
#[verifier::external_body]
fn finish_node(builder: &mut rowan::GreenNodeBuilder<'static>)
    requires
        open_nodes(
            builder_events(*old(builder)),
            builder_events(*old(builder)).len() as int,
        ) > 0,
    ensures
        builder_events(*final(builder)) == builder_events(*old(builder)).push(GreenEvent::Finish),
{
    builder.finish_node()
}

/// `rowan::GreenNodeBuilder::finish`: the one node that the steps built.
#[verifier::external_body]
fn finish(builder: rowan::GreenNodeBuilder<'static>) -> (node: rowan::GreenNode)
    requires
        one_tree(builder_events(builder)),
    ensures
        green_events(node) == builder_events(builder),
{
    builder.finish()
}

/// The number that stands for a kind in a green tree.
pub open spec fn raw_kind(kind: SyntaxKind) -> u16 {
    match kind {
        SyntaxKind::WHITESPACE => 0,
        SyntaxKind::NEWLINE => 1,
        SyntaxKind::COMMENT => 2,
        SyntaxKind::EQUALS => 3,
        SyntaxKind::STRING => 4,
        SyntaxKind::WORD => 5,
        SyntaxKind::ERROR_TOKEN => 6,
        SyntaxKind::ROOT => 7,
        SyntaxKind::BLOCK => 8,
        SyntaxKind::MODULE => 9,
        SyntaxKind::FIELD => 10,
        SyntaxKind::VALUE => 11,
        SyntaxKind::ERROR => 12,
        SyntaxKind::EOF => 13,
    }
}

/// The number that stands for a kind in a green tree.
pub fn kind_to_raw(kind: SyntaxKind) -> (raw: u16)
    ensures
        raw == raw_kind(kind),
{
    match kind {
        SyntaxKind::WHITESPACE => 0,
        SyntaxKind::NEWLINE => 1,
        SyntaxKind::COMMENT => 2,
        SyntaxKind::EQUALS => 3,
        SyntaxKind::STRING => 4,
        SyntaxKind::WORD => 5,
        SyntaxKind::ERROR_TOKEN => 6,
        SyntaxKind::ROOT => 7,
        SyntaxKind::BLOCK => 8,
        SyntaxKind::MODULE => 9,
        SyntaxKind::FIELD => 10,
        SyntaxKind::VALUE => 11,
        SyntaxKind::ERROR => 12,
        SyntaxKind::EOF => 13,
    }
}

/// The kind that a number stands for, if it stands for one.
pub fn kind_from_raw(raw: u16) -> (kind: Option<SyntaxKind>)
    ensures
        kind is Some == (raw <= 13),
        kind is Some ==> raw_kind(kind->0) == raw,
{
    match raw {
        0 => Some(SyntaxKind::WHITESPACE),
        1 => Some(SyntaxKind::NEWLINE),
        2 => Some(SyntaxKind::COMMENT),
        3 => Some(SyntaxKind::EQUALS),
        4 => Some(SyntaxKind::STRING),
        5 => Some(SyntaxKind::WORD),
        6 => Some(SyntaxKind::ERROR_TOKEN),
        7 => Some(SyntaxKind::ROOT),
        8 => Some(SyntaxKind::BLOCK),
        9 => Some(SyntaxKind::MODULE),
        10 => Some(SyntaxKind::FIELD),
        11 => Some(SyntaxKind::VALUE),
        12 => Some(SyntaxKind::ERROR),
        13 => Some(SyntaxKind::EOF),
        _ => None,
    }
}

/// The steps that build an element.
pub open spec fn element_events(e: ElementView) -> Seq<GreenEvent>
    decreases e,
{
    match e {
        ElementView::Token(leaf) => seq![GreenEvent::Token(raw_kind(leaf.kind), leaf.text)],
        ElementView::Node(node) => seq![GreenEvent::Start(raw_kind(node.kind))] + elements_events(
            node.children,
        ) + seq![GreenEvent::Finish],
    }
}

/// The steps that build a list of elements.
pub open spec fn elements_events(s: Seq<ElementView>) -> Seq<GreenEvent>
    decreases s,
{
    if s.len() == 0 {
        Seq::empty()
    } else {
        elements_events(s.drop_last()) + element_events(s.last())
    }
}

/// The elements of a document.
pub open spec fn document_elements(children: Seq<ChildView>) -> Seq<ElementView> {
    Seq::new(children.len(), |i: int| children[i].element)
}

/// The steps that build a document.
pub open spec fn document_events(children: Seq<ChildView>) -> Seq<GreenEvent> {
    seq![GreenEvent::Start(raw_kind(SyntaxKind::ROOT))] + elements_events(
        document_elements(children),
    ) + seq![GreenEvent::Finish]
}

proof fn lemma_open_concat(a: Seq<GreenEvent>, b: Seq<GreenEvent>, i: int)
    requires
        0 <= i <= b.len(),
    ensures
        open_nodes(a + b, a.len() + i) == open_nodes(a, a.len() as int) + open_nodes(b, i),
    decreases i,
{
    if i == 0 {
        lemma_open_prefix(a, b, a.len() as int);
    } else {
        lemma_open_concat(a, b, i - 1);
        assert((a + b)[a.len() + i - 1] == b[i - 1]);
    }
}

proof fn lemma_open_prefix(a: Seq<GreenEvent>, b: Seq<GreenEvent>, i: int)
    requires
        0 <= i <= a.len(),
    ensures
        open_nodes(a + b, i) == open_nodes(a, i),
    decreases i,
{
    if i > 0 {
        lemma_open_prefix(a, b, i - 1);
        assert((a + b)[i - 1] == a[i - 1]);
    }
}

/// Every node that the steps open they also close, and no other.
spec fn balanced(events: Seq<GreenEvent>) -> bool {
    &&& open_nodes(events, events.len() as int) == 0
    &&& forall|i: int| 0 <= i <= events.len() ==> #[trigger] open_nodes(events, i) >= 0
}

proof fn lemma_balanced_concat(a: Seq<GreenEvent>, b: Seq<GreenEvent>)
    requires
        balanced(a),
        balanced(b),
    ensures
        balanced(a + b),
{
    lemma_open_concat(a, b, b.len() as int);
    assert forall|i: int| 0 <= i <= (a + b).len() implies #[trigger] open_nodes(a + b, i) >= 0 by {
        if i <= a.len() {
            lemma_open_prefix(a, b, i);
        } else {
            lemma_open_concat(a, b, i - a.len());
        }
    }
}

proof fn lemma_wrapped(kind: u16, inner: Seq<GreenEvent>)
    requires
        balanced(inner),
    ensures
        ({
            let all = seq![GreenEvent::Start(kind)] + inner + seq![GreenEvent::Finish];
            &&& one_tree(all)
            &&& balanced(all)
            &&& open_nodes(seq![GreenEvent::Start(kind)] + inner, inner.len() as int + 1) == 1
        }),
{
    let first = seq![GreenEvent::Start(kind)];
    let last = seq![GreenEvent::Finish];
    let all = first + inner + last;
    reveal_with_fuel(open_nodes, 3);
    assert(open_nodes(first, 1) == 1);
    assert(open_nodes(last, 1) == -1);
    assert forall|i: int| 0 < i <= inner.len() + 1 implies #[trigger] open_nodes(all, i) > 0 by {
        lemma_open_prefix(first + inner, last, i);
        lemma_open_concat(first, inner, i - 1);
    }
    lemma_open_concat(first + inner, last, 1);
    lemma_open_concat(first, inner, inner.len() as int);
    assert(all[0] == first[0]);
}

proof fn lemma_element_balanced(e: ElementView)
    ensures
        balanced(element_events(e)),
    decreases e,
{
    match e {
        ElementView::Token(leaf) => {
            reveal_with_fuel(open_nodes, 3);
            let one = seq![GreenEvent::Token(raw_kind(leaf.kind), leaf.text)];
            assert(open_nodes(one, 1) == 0);
        },
        ElementView::Node(node) => {
            lemma_elements_balanced(node.children);
            lemma_wrapped(raw_kind(node.kind), elements_events(node.children));
        },
    }
}

proof fn lemma_elements_balanced(s: Seq<ElementView>)
    ensures
        balanced(elements_events(s)),
    decreases s,
{
    if s.len() > 0 {
        lemma_elements_balanced(s.drop_last());
        lemma_element_balanced(s.last());
        lemma_balanced_concat(elements_events(s.drop_last()), element_events(s.last()));
    }
}

proof fn lemma_events_text_concat(a: Seq<GreenEvent>, b: Seq<GreenEvent>)
    ensures
        events_text(a + b) == events_text(a) + events_text(b),
    decreases b.len(),
{
    if b.len() == 0 {
        assert(a + b =~= a);
        assert(events_text(a) + events_text(b) =~= events_text(a));
    } else {
        assert((a + b).drop_last() =~= a + b.drop_last());
        lemma_events_text_concat(a, b.drop_last());
        assert(events_text(a + b) =~= events_text(a) + events_text(b));
    }
}

proof fn lemma_event_text_one(e: GreenEvent)
    ensures
        events_text(seq![e]) == match e {
            GreenEvent::Token(_, text) => text,
            _ => Seq::<char>::empty(),
        },
{
    reveal_with_fuel(events_text, 2);
    assert(seq![e].drop_last() =~= Seq::<GreenEvent>::empty());
    assert(events_text(seq![e]) =~= match e {
        GreenEvent::Token(_, text) => text,
        _ => Seq::<char>::empty(),
    });
}

proof fn lemma_element_events_text(e: ElementView)
    ensures
        events_text(element_events(e)) == element_text(e),
    decreases e,
{
    match e {
        ElementView::Token(leaf) => {
            lemma_event_text_one(GreenEvent::Token(raw_kind(leaf.kind), leaf.text));
        },
        ElementView::Node(node) => {
            let first = seq![GreenEvent::Start(raw_kind(node.kind))];
            let inner = elements_events(node.children);
            lemma_elements_events_text(node.children);
            lemma_events_text_concat(first, inner);
            lemma_events_text_concat(first + inner, seq![GreenEvent::Finish]);
            lemma_event_text_one(GreenEvent::Start(raw_kind(node.kind)));
            lemma_event_text_one(GreenEvent::Finish);
            assert(events_text(element_events(e)) =~= element_text(e));
        },
    }
}

proof fn lemma_elements_events_text(s: Seq<ElementView>)
    ensures
        events_text(elements_events(s)) == elements_text(s),
    decreases s,
{
    if s.len() > 0 {
        lemma_elements_events_text(s.drop_last());
        lemma_element_events_text(s.last());
        lemma_events_text_concat(elements_events(s.drop_last()), element_events(s.last()));
    }
}

proof fn lemma_document_elements_text(children: Seq<ChildView>)
    ensures
        elements_text(document_elements(children)) == document_text(children),
    decreases children.len(),
{
    if children.len() > 0 {
        assert(document_elements(children).drop_last() =~= document_elements(children.drop_last()));
        lemma_document_elements_text(children.drop_last());
    } else {
        assert(document_elements(children) =~= Seq::<ElementView>::empty());
    }
}

proof fn lemma_prefix_text(s: Seq<ElementView>, k: int)
    requires
        0 <= k < s.len(),
    ensures
        blen(elements_text(s.take(k))) + blen(element_text(s[k])) <= blen(elements_text(s)),
    decreases s.len(),
{
    if k == s.len() - 1 {
        assert(s.take(k) =~= s.drop_last());
        lemma_encode_concat(elements_text(s.drop_last()), element_text(s.last()));
    } else {
        lemma_prefix_text(s.drop_last(), k);
        assert(s.drop_last().take(k) =~= s.take(k));
        lemma_encode_concat(elements_text(s.drop_last()), element_text(s.last()));
    }
}

/// Adds a token or node to the open node of a builder.
fn emit(builder: &mut rowan::GreenNodeBuilder<'static>, element: &SyntaxElement)
    requires
        blen(events_text(builder_events(*old(builder)))) + blen(element_text(element.view()))
            <= u32::MAX,
        open_nodes(
            builder_events(*old(builder)),
            builder_events(*old(builder)).len() as int,
        ) > 0,
    ensures
        builder_events(*final(builder)) == builder_events(*old(builder)) + element_events(
            element.view(),
        ),
    decreases element,
{
    let ghost before = builder_events(*builder);
    match element {
        SyntaxElement::Token(token) => {
            add_token(builder, kind_to_raw(token.kind), token.text.as_str());
            assert(builder_events(*builder) =~= before + element_events(element.view()));
        },
        SyntaxElement::Node(node) => {
            let raw = kind_to_raw(node.kind);
            let ghost first = seq![GreenEvent::Start(raw)];
            let ghost parts = views(node.children@);
            start_node(builder, raw);
            let mut k: usize = 0;
            proof {
                assert(builder_events(*builder) =~= before + first + elements_events(
                    parts.take(0),
                ));
            }
            while k < node.children.len()
                invariant
                    k <= node.children@.len(),
                    parts == views(node.children@),
                    first == seq![GreenEvent::Start(raw)],
                    raw == raw_kind(node.kind),
                    open_nodes(before, before.len() as int) > 0,
                    blen(events_text(before)) + blen(elements_text(parts)) <= u32::MAX,
                    builder_events(*builder) == before + first + elements_events(
                        parts.take(k as int),
                    ),
                    *element == SyntaxElement::Node(*node),
                decreases node.children@.len() - k,
            {
                let ghost done = elements_events(parts.take(k as int));
                proof {
                    lemma_prefix_text(parts, k as int);
                    lemma_events_text_concat(before, first);
                    lemma_events_text_concat(before + first, done);
                    lemma_event_text_one(first[0]);
                    lemma_elements_events_text(parts.take(k as int));
                    assert(events_text(before) + Seq::<char>::empty() =~= events_text(before));
                    lemma_encode_concat(events_text(before), elements_text(parts.take(k as int)));
                    lemma_elements_balanced(parts.take(k as int));
                    reveal_with_fuel(open_nodes, 2);
                    lemma_open_concat(before, first, 1);
                    lemma_open_concat(before + first, done, done.len() as int);
                    assert(parts.take(k + 1).drop_last() =~= parts.take(k as int));
                    assert(parts.take(k + 1).last() == node.children@[k as int].view());
                }
                assert(decreases_to!(element => element->Node_0));
                assert(decreases_to!(node.children@ => node.children@[k as int]));
                emit(builder, &node.children[k]);
                proof {
                    assert(before + first + done + element_events(parts[k as int]) =~= before
                        + first + elements_events(parts.take(k + 1)));
                }
                k += 1;
            }
            proof {
                assert(parts.take(k as int) =~= parts);
                let done = elements_events(parts);
                lemma_elements_balanced(parts);
                reveal_with_fuel(open_nodes, 2);
                lemma_open_concat(before, first, 1);
                lemma_open_concat(before + first, done, done.len() as int);
            }
            finish_node(builder);
            assert(builder_events(*builder) =~= before + element_events(element.view()));
        },
    }
}

impl Parse {
    /// The tree as a rowan green tree.
    pub fn green(&self) -> (node: rowan::GreenNode)
        requires
            blen(document_text(child_views(self.children@))) <= u32::MAX,
        ensures
            green_events(node) == document_events(child_views(self.children@)),
    {
        let mut builder = new_builder();
        let raw = kind_to_raw(SyntaxKind::ROOT);
        let ghost first = seq![GreenEvent::Start(raw)];
        let ghost parts = document_elements(child_views(self.children@));
        start_node(&mut builder, raw);
        let mut k: usize = 0;
        proof {
            lemma_document_elements_text(child_views(self.children@));
            assert(builder_events(builder) =~= first + elements_events(parts.take(0)));
        }
        while k < self.children.len()
            invariant
                k <= self.children@.len(),
                parts == document_elements(child_views(self.children@)),
                first == seq![GreenEvent::Start(raw)],
                blen(elements_text(parts)) <= u32::MAX,
                builder_events(builder) == first + elements_events(parts.take(k as int)),
            decreases self.children@.len() - k,
        {
            let ghost done = elements_events(parts.take(k as int));
            proof {
                lemma_prefix_text(parts, k as int);
                lemma_events_text_concat(first, done);
                lemma_event_text_one(first[0]);
                lemma_elements_events_text(parts.take(k as int));
                assert(Seq::<char>::empty() + elements_text(parts.take(k as int)) =~= elements_text(
                    parts.take(k as int),
                ));
                lemma_elements_balanced(parts.take(k as int));
                lemma_wrapped(raw, done);
                assert(parts.take(k + 1).drop_last() =~= parts.take(k as int));
            }
            emit(&mut builder, &self.children[k].element);
            proof {
                assert(first + done + element_events(parts[k as int]) =~= first + elements_events(
                    parts.take(k + 1),
                ));
            }
            k += 1;
        }
        proof {
            assert(parts.take(k as int) =~= parts);
            lemma_elements_balanced(parts);
            lemma_wrapped(raw, elements_events(parts));
        }
        finish_node(&mut builder);
        proof {
            assert(builder_events(builder) =~= document_events(child_views(self.children@)));
        }
        finish(builder)
    }
}

} // verus!
