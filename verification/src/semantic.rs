//! Semantic tokens: classify each token for highlighting, using the schema so
//! enum members, references, numbers, etc. are coloured by meaning rather than
//! by lexical shape.

use vstd::prelude::*;
use vstd::string::*;

use crate::analyzer::{has_slot, Analyzer, Span};
use crate::ast::{leaf_views, Block, Field, Module};
use crate::index::rebase;
use crate::kind::SyntaxKind;
use crate::layout::{
    document_tiled, extent, lemma_tiled_order, parse_tiles_the_text, tiled, well_placed,
};
use crate::model::{block_scope, module_scope, scope_schema, ScopeSchema, ScopeView};
use crate::outline::leaf_span;
use crate::parser::{child_views, parse_text, Child, ChildView, OpenerOracle, Parse};
use crate::schema::{Schema, ValueType};
use crate::text::{blen, same_ignoring_case};
use crate::tree::{
    views, ElementView, LeafView, NodeView, SyntaxElement, SyntaxNode, SyntaxToken,
};

verus! {

/// Semantic classification of a token.
#[derive(Debug, Clone, Copy, PartialEq, Eq, Structural)]
pub enum SemKind {
    /// Block keyword (`Object`, `Weapon`, `End`) and module-slot keywords.
    Keyword,
    /// A block/definition name (`AK47`).
    BlockName,
    /// A field key (left of `=`).
    Field,
    /// A module type name (`W3DModelDraw`).
    Module,
    /// An enum / bitflag member, or a boolean literal.
    EnumMember,
    /// `=`.
    Operator,
    /// A numeric literal.
    Number,
    /// A quoted or asset string.
    StringLit,
    /// A reference to another named definition.
    Reference,
    /// A comment.
    Comment,
}

/// A classified token over a byte span.
#[derive(Debug, Clone, Copy, PartialEq, Eq, Structural)]
pub struct SemToken {
    pub span: Span,
    pub kind: SemKind,
}

/// The classification of a value token, by the type of its field.
pub open spec fn value_kind(leaf: LeafView, ty: Option<ValueType>) -> SemKind {
    if leaf.kind == SyntaxKind::STRING {
        SemKind::StringLit
    } else {
        match ty {
            Some(ValueType::Bool) => SemKind::EnumMember,
            Some(ValueType::Enum { .. }) => SemKind::EnumMember,
            Some(ValueType::BitFlags { .. }) => SemKind::EnumMember,
            Some(ValueType::Int) => SemKind::Number,
            Some(ValueType::UInt) => SemKind::Number,
            Some(ValueType::Real) => SemKind::Number,
            Some(ValueType::PositiveReal) => SemKind::Number,
            Some(ValueType::AngleReal) => SemKind::Number,
            Some(ValueType::Percent) => SemKind::Number,
            Some(ValueType::Duration) => SemKind::Number,
            Some(ValueType::Velocity) => SemKind::Number,
            Some(ValueType::Acceleration) => SemKind::Number,
            Some(ValueType::Color) => SemKind::Number,
            Some(ValueType::Coord2D) => SemKind::Number,
            Some(ValueType::Coord3D) => SemKind::Number,
            Some(ValueType::Reference { .. }) => SemKind::Reference,
            _ => SemKind::StringLit,
        }
    }
}

/// The classifications that the header line of a node gives to its tokens,
/// each by the token's offset.
pub open spec fn header_marks(scope: ScopeView, node: NodeView) -> Seq<(int, SemKind)> {
    let none = Seq::<(int, SemKind)>::empty();
    if node.kind == SyntaxKind::BLOCK {
        let head = marked(none, node.head_word(), SemKind::Keyword);
        marked(head, node.second_word(), SemKind::BlockName)
    } else if node.kind == SyntaxKind::MODULE {
        let head = marked(none, node.head_word(), SemKind::Keyword);
        marked(
            head,
            node.after_equals(0),
            if fills_slot(scope, node) {
                SemKind::Module
            } else {
                SemKind::EnumMember
            },
        )
    } else if node.kind == SyntaxKind::FIELD {
        let head = marked(none, node.head_word(), SemKind::Field);
        marked_values(head, node.values(), field_type(scope, node))
    } else {
        none
    }
}

pub open spec fn marked(
    marks: Seq<(int, SemKind)>,
    leaf: Option<LeafView>,
    kind: SemKind,
) -> Seq<(int, SemKind)> {
    match leaf {
        Some(leaf) => marks.push((leaf.start, kind)),
        None => marks,
    }
}

pub open spec fn marked_values(
    marks: Seq<(int, SemKind)>,
    values: Seq<LeafView>,
    ty: Option<ValueType>,
) -> Seq<(int, SemKind)>
    decreases values.len(),
{
    if values.len() == 0 {
        marks
    } else {
        marked_values(marks, values.drop_last(), ty).push(
            (values.last().start, value_kind(values.last(), ty)),
        )
    }
}

/// Whether a module fills one of the slots of its scope; otherwise it is a
/// sub-block and the name after its `=` an argument.
pub open spec fn fills_slot(scope: ScopeView, node: NodeView) -> bool {
    match node.head_word() {
        Some(slot) => has_slot(scope.slots(), slot.text),
        None => false,
    }
}

/// The value type of a field in its scope.
pub open spec fn field_type(scope: ScopeView, node: NodeView) -> Option<ValueType> {
    match node.head_word() {
        Some(key) => match scope.field(key.text) {
            Some(field) => Some(field.value_type),
            None => None,
        },
        None => None,
    }
}

/// The scope inside a node.
pub open spec fn inner_scope(schema: Schema, scope: ScopeView, node: NodeView) -> ScopeView {
    if node.kind == SyntaxKind::BLOCK {
        block_scope(schema, node)
    } else if node.kind == SyntaxKind::MODULE && fills_slot(scope, node) {
        module_scope(schema, node)
    } else {
        ScopeView::Unknown
    }
}

/// The last mark at an offset.
pub open spec fn mark_at(marks: Seq<(int, SemKind)>, start: int) -> Option<SemKind>
    decreases marks.len(),
{
    if marks.len() == 0 {
        None
    } else if marks.last().0 == start {
        Some(marks.last().1)
    } else {
        mark_at(marks.drop_last(), start)
    }
}

/// The classification of a token: comments, `=` and `End` by their shape, the
/// rest by the header line; other strings are string literals.
pub open spec fn leaf_kind(leaf: LeafView, marks: Seq<(int, SemKind)>) -> Option<SemKind> {
    if leaf.kind == SyntaxKind::COMMENT {
        Some(SemKind::Comment)
    } else if leaf.kind == SyntaxKind::EQUALS {
        Some(SemKind::Operator)
    } else if leaf.kind == SyntaxKind::WORD && same_ignoring_case(leaf.text, "End"@) {
        Some(SemKind::Keyword)
    } else if mark_at(marks, leaf.start) is Some {
        mark_at(marks, leaf.start)
    } else if leaf.kind == SyntaxKind::STRING {
        Some(SemKind::StringLit)
    } else {
        None
    }
}

/// The classified tokens of an element, in order, after `acc`. `marks` are
/// those of the node that holds the element, `scope` is the schema inside it.
pub open spec fn element_tokens(
    schema: Schema,
    e: ElementView,
    offset: int,
    scope: ScopeView,
    marks: Seq<(int, SemKind)>,
    acc: Seq<SemToken>,
) -> Seq<SemToken>
    decreases e,
{
    match e {
        ElementView::Token(leaf) => match leaf_kind(leaf, marks) {
            Some(kind) => acc.push(SemToken { span: leaf_span(leaf, offset), kind }),
            None => acc,
        },
        ElementView::Node(node) => tokens_in(
            schema,
            node.children,
            offset,
            inner_scope(schema, scope, node),
            header_marks(scope, node),
            acc,
        ),
    }
}

pub open spec fn tokens_in(
    schema: Schema,
    elements: Seq<ElementView>,
    offset: int,
    scope: ScopeView,
    marks: Seq<(int, SemKind)>,
    acc: Seq<SemToken>,
) -> Seq<SemToken>
    decreases elements,
{
    if elements.len() == 0 {
        acc
    } else {
        element_tokens(
            schema,
            elements.last(),
            offset,
            scope,
            marks,
            tokens_in(schema, elements.drop_last(), offset, scope, marks, acc),
        )
    }
}

/// Whether a top-level element has a byte in `range`.
pub open spec fn touches(child: ChildView, range: Span) -> bool {
    child.offset < range.end && range.start < child.offset + extent(child.element).1
}

/// The classified tokens of the top-level elements that touch `range`.
pub open spec fn tokens_of(
    schema: Schema,
    children: Seq<ChildView>,
    range: Option<Span>,
) -> Seq<SemToken>
    decreases children.len(),
{
    if children.len() == 0 {
        Seq::empty()
    } else {
        let rest = tokens_of(schema, children.drop_last(), range);
        let last = children.last();
        if range is None || touches(last, range->0) {
            element_tokens(
                schema,
                last.element,
                last.offset,
                ScopeView::Unknown,
                Seq::empty(),
                rest,
            )
        } else {
            rest
        }
    }
}

// ---------------------------------------------------------------------------
// Classification
// ---------------------------------------------------------------------------
/// Classify a field value token according to the field's value type.
fn value_token_kind(token: &SyntaxToken, ty: Option<&ValueType>) -> (kind: SemKind)
    ensures
        kind == value_kind(
            token.view(),
            match ty {
                Some(ty) => Some(*ty),
                None => None,
            },
        ),
{
    if token.kind == SyntaxKind::STRING {
        return SemKind::StringLit;
    }
    match ty {
        Some(ty) => match ty {
            ValueType::Bool | ValueType::Enum { .. } | ValueType::BitFlags { .. } =>
                SemKind::EnumMember,
            ValueType::Int
            | ValueType::UInt
            | ValueType::Real
            | ValueType::PositiveReal
            | ValueType::AngleReal
            | ValueType::Percent
            | ValueType::Duration
            | ValueType::Velocity
            | ValueType::Acceleration
            | ValueType::Color
            | ValueType::Coord2D
            | ValueType::Coord3D => SemKind::Number,
            ValueType::Reference { .. } => SemKind::Reference,
            _ => SemKind::StringLit,
        },
        None => SemKind::StringLit,
    }
}

spec fn mark_views(marks: Seq<(u32, SemKind)>) -> Seq<(int, SemKind)> {
    Seq::new(marks.len(), |i: int| (marks[i].0 as int, marks[i].1))
}

fn mark(marks: &mut Vec<(u32, SemKind)>, token: Option<&SyntaxToken>, kind: SemKind)
    ensures
        mark_views(final(marks)@) == marked(
            mark_views(old(marks)@),
            crate::ast::opt_leaf(token),
            kind,
        ),
{
    let ghost before = mark_views(marks@);
    if let Some(token) = token {
        marks.push((token.start, kind));
        assert(mark_views(marks@) =~= before.push((token.start as int, kind)));
    }
}

/// The classifications of a header line, and the schema inside the node.
fn classify_header<'a>(analyzer: &'a Analyzer, scope: ScopeSchema<'a>, node: &SyntaxNode) -> (out: (
    Vec<(u32, SemKind)>,
    ScopeSchema<'a>,
))
    ensures
        mark_views(out.0@) == header_marks(scope.view(), node.view()),
        out.1.view() == inner_scope(analyzer.schema, scope.view(), node.view()),
{
    let mut marks: Vec<(u32, SemKind)> = Vec::new();
    assert(mark_views(marks@) =~= Seq::<(int, SemKind)>::empty());
    match node.kind {
        SyntaxKind::BLOCK => {
            let block = Block(node);
            mark(&mut marks, block.keyword(), SemKind::Keyword);
            mark(&mut marks, block.name(), SemKind::BlockName);
            (marks, scope_schema(analyzer, ScopeSchema::Unknown, node))
        },
        SyntaxKind::MODULE => {
            let module = Module(node);
            let is_real = match module.slot() {
                Some(slot) => scope.slot(slot.text.as_str()).is_some(),
                None => false,
            };
            mark(&mut marks, module.slot(), SemKind::Keyword);
            mark(
                &mut marks,
                module.module_name(),
                if is_real {
                    SemKind::Module
                } else {
                    SemKind::EnumMember
                },
            );
            let inner = if is_real {
                scope_schema(analyzer, scope, node)
            } else {
                ScopeSchema::Unknown
            };
            (marks, inner)
        },
        SyntaxKind::FIELD => {
            let field = Field(node);
            mark(&mut marks, field.key(), SemKind::Field);
            let ty = match field.key() {
                Some(key) => match scope.field(key.text.as_str()) {
                    Some(field) => Some(&field.value_type),
                    None => None,
                },
                None => None,
            };
            classify_values(&mut marks, &field.value_tokens(), ty);
            (marks, ScopeSchema::Unknown)
        },
        _ => (marks, ScopeSchema::Unknown),
    }
}

fn classify_values(
    marks: &mut Vec<(u32, SemKind)>,
    values: &Vec<&SyntaxToken>,
    ty: Option<&ValueType>,
)
    ensures
        mark_views(final(marks)@) == marked_values(
            mark_views(old(marks)@),
            leaf_views(values@),
            match ty {
                Some(ty) => Some(*ty),
                None => None,
            },
        ),
{
    let ghost all = leaf_views(values@);
    let ghost start = mark_views(marks@);
    let ghost view = match ty {
        Some(ty) => Some(*ty),
        None => None,
    };
    let mut i: usize = 0;
    assert(all.take(0) =~= Seq::<LeafView>::empty());
    while i < values.len()
        invariant
            i <= values@.len(),
            all == leaf_views(values@),
            view == (match ty {
                Some(ty) => Some(*ty),
                None => None,
            }),
            mark_views(marks@) == marked_values(start, all.take(i as int), view),
        decreases values@.len() - i,
    {
        proof {
            assert(all.take(i + 1).drop_last() =~= all.take(i as int));
            assert(all.take(i + 1).last() == values@[i as int].view());
        }
        let kind = value_token_kind(values[i], ty);
        mark(marks, Some(values[i]), kind);
        i += 1;
    }
    assert(all.take(i as int) =~= all);
}

fn find_mark(marks: &Vec<(u32, SemKind)>, start: u32) -> (out: Option<SemKind>)
    ensures
        out == mark_at(mark_views(marks@), start as int),
{
    let ghost all = mark_views(marks@);
    let mut i: usize = marks.len();
    assert(all.take(i as int) =~= all);
    while i > 0
        invariant
            i <= marks@.len(),
            all == mark_views(marks@),
            mark_at(all.take(i as int), start as int) == mark_at(all, start as int),
        decreases i,
    {
        proof {
            assert(all.take(i as int).drop_last() =~= all.take(i - 1));
            assert(all.take(i as int).last() == (marks@[i - 1].0 as int, marks@[i - 1].1));
        }
        if marks[i - 1].0 == start {
            return Some(marks[i - 1].1);
        }
        i -= 1;
    }
    None
}

fn classify_token(
    token: &SyntaxToken,
    offset: u32,
    marks: &Vec<(u32, SemKind)>,
    out: &mut Vec<SemToken>,
)
    ensures
        final(out)@ == match leaf_kind(token.view(), mark_views(marks@)) {
            Some(kind) => old(out)@.push(
                SemToken { span: leaf_span(token.view(), offset as int), kind },
            ),
            None => old(out)@,
        },
{
    let kind = match token.kind {
        SyntaxKind::COMMENT => Some(SemKind::Comment),
        SyntaxKind::EQUALS => Some(SemKind::Operator),
        _ => if token.kind == SyntaxKind::WORD && token.text.as_str().eq_ignore_ascii_case("End") {
            Some(SemKind::Keyword)
        } else {
            match find_mark(marks, token.start) {
                Some(kind) => Some(kind),
                None => if token.kind == SyntaxKind::STRING {
                    Some(SemKind::StringLit)
                } else {
                    None
                },
            }
        },
    };
    if let Some(kind) = kind {
        out.push(SemToken { span: rebase(offset, token.start, token.end), kind });
    }
}

fn classify_node<'a>(
    analyzer: &'a Analyzer,
    node: &SyntaxNode,
    offset: u32,
    scope: ScopeSchema<'a>,
    out: &mut Vec<SemToken>,
    Ghost(outer): Ghost<Seq<(int, SemKind)>>,
)
    ensures
        final(out)@ == element_tokens(
            analyzer.schema,
            ElementView::Node(node.view()),
            offset as int,
            scope.view(),
            outer,
            old(out)@,
        ),
    decreases node,
{
    let (marks, inner) = classify_header(analyzer, scope, node);
    let ghost start = out@;
    let ghost all = views(node.children@);
    let mut i: usize = 0;
    assert(all.take(0) =~= Seq::<ElementView>::empty());
    while i < node.children.len()
        invariant
            i <= node.children@.len(),
            all == views(node.children@),
            out@ == tokens_in(
                analyzer.schema,
                all.take(i as int),
                offset as int,
                inner.view(),
                mark_views(marks@),
                start,
            ),
        decreases node.children@.len() - i,
    {
        proof {
            assert(all.take(i + 1).drop_last() =~= all.take(i as int));
            assert(all.take(i + 1).last() == node.children@[i as int].view());
            assert(decreases_to!(node => node.children));
            assert(decreases_to!(node.children@ => node.children@[i as int]));
        }
        let ghost before = out@;
        match &node.children[i] {
            SyntaxElement::Node(child) => {
                assert(decreases_to!(node.children@[i as int] => node.children@[i as int]->Node_0));
                classify_node(analyzer, child, offset, inner, out, Ghost(mark_views(marks@)));
            },
            SyntaxElement::Token(token) => {
                classify_token(token, offset, &marks, out);
            },
        }
        assert(out@ == element_tokens(
            analyzer.schema,
            all[i as int],
            offset as int,
            inner.view(),
            mark_views(marks@),
            before,
        ));
        i += 1;
    }
    assert(all.take(i as int) =~= all);
}

fn element_end(element: &SyntaxElement) -> (end: u32)
    ensures
        end == extent(element.view()).1,
{
    match element {
        SyntaxElement::Node(node) => node.end,
        SyntaxElement::Token(token) => token.end,
    }
}

fn classify_children(analyzer: &Analyzer, children: &Vec<Child>, range: Option<Span>) -> (out: Vec<
    SemToken,
>)
    ensures
        out@ == tokens_of(analyzer.schema, child_views(children@), range),
{
    let ghost all = child_views(children@);
    let mut out: Vec<SemToken> = Vec::new();
    let none: Vec<(u32, SemKind)> = Vec::new();
    let mut i: usize = 0;
    proof {
        assert(mark_views(none@) =~= Seq::<(int, SemKind)>::empty());
        assert(out@ =~= tokens_of(analyzer.schema, all.take(0), range));
    }
    while i < children.len()
        invariant
            i <= children@.len(),
            all == child_views(children@),
            mark_views(none@) == Seq::<(int, SemKind)>::empty(),
            out@ == tokens_of(analyzer.schema, all.take(i as int), range),
        decreases children@.len() - i,
    {
        let child = &children[i];
        proof {
            assert(all.take(i + 1).drop_last() =~= all.take(i as int));
            assert(all.take(i + 1).last() == child.view());
        }
        let shown = match range {
            Some(range) => child.offset < range.end && (range.start as u64) < child.offset as u64
                + element_end(&child.element) as u64,
            None => true,
        };
        if shown {
            let ghost before = out@;
            let element: &SyntaxElement = &child.element;
            match element {
                SyntaxElement::Node(node) => {
                    classify_node(
                        analyzer,
                        node,
                        child.offset,
                        ScopeSchema::Unknown,
                        &mut out,
                        Ghost(Seq::empty()),
                    );
                },
                SyntaxElement::Token(token) => {
                    classify_token(token, child.offset, &none, &mut out);
                },
            }
            assert(out@ == element_tokens(
                analyzer.schema,
                child.element.view(),
                child.offset as int,
                ScopeView::Unknown,
                Seq::empty(),
                before,
            ));
        }
        i += 1;
    }
    assert(all.take(i as int) =~= all);
    out
}

/// Produce semantic tokens for the whole document, sorted by start offset and
/// non-overlapping (one classification per token).
pub fn semantic_tokens(analyzer: &Analyzer, parse: &Parse) -> (out: Vec<SemToken>)
    ensures
        out@ == tokens_of(analyzer.schema, child_views(parse.children@), None),
{
    classify_children(analyzer, &parse.children, None)
}

/// Produce semantic tokens for the top-level elements that touch `range`, so
/// that a repaint costs no pass over the whole file.
pub fn semantic_tokens_range(analyzer: &Analyzer, parse: &Parse, range: Span) -> (out: Vec<
    SemToken,
>)
    ensures
        out@ == tokens_of(analyzer.schema, child_views(parse.children@), Some(range)),
{
    classify_children(analyzer, &parse.children, Some(range))
}

// ---------------------------------------------------------------------------
// Laws
// ---------------------------------------------------------------------------
/// Tokens in order, none overlapping another.
pub open spec fn apart(tokens: Seq<SemToken>) -> bool {
    forall|i: int, j: int| #![trigger tokens[i], tokens[j]]
        0 <= i < j < tokens.len() ==> tokens[i].span.end <= tokens[j].span.start
}

/// Every token is non-empty and ends by `end`.
pub open spec fn ends_by(tokens: Seq<SemToken>, end: int) -> bool {
    forall|i: int|
        0 <= i < tokens.len() ==> (#[trigger] tokens[i]).span.start < tokens[i].span.end <= end
}

proof fn lemma_push_apart(tokens: Seq<SemToken>, next: SemToken, start: int)
    requires
        apart(tokens),
        ends_by(tokens, start),
        start <= next.span.start < next.span.end,
    ensures
        apart(tokens.push(next)),
        ends_by(tokens.push(next), next.span.end as int),
{
    let more = tokens.push(next);
    assert forall|i: int, j: int| #![trigger more[i], more[j]]
        0 <= i < j < more.len() implies more[i].span.end <= more[j].span.start by {
        assert(more[i] == tokens[i]);
        if j < tokens.len() {
            assert(more[j] == tokens[j]);
        }
    }
    assert forall|i: int| 0 <= i < more.len() implies (#[trigger] more[i]).span.start
        < more[i].span.end <= next.span.end by {
        if i < tokens.len() {
            assert(more[i] == tokens[i]);
        }
    }
}

proof fn lemma_element_tokens(
    schema: Schema,
    e: ElementView,
    offset: int,
    scope: ScopeView,
    marks: Seq<(int, SemKind)>,
    acc: Seq<SemToken>,
)
    requires
        well_placed(e),
        0 <= offset,
        0 <= extent(e).0,
        offset + extent(e).1 <= u32::MAX,
        apart(acc),
        ends_by(acc, offset + extent(e).0),
    ensures
        apart(element_tokens(schema, e, offset, scope, marks, acc)),
        ends_by(element_tokens(schema, e, offset, scope, marks, acc), offset + extent(e).1),
    decreases e,
{
    match e {
        ElementView::Token(leaf) => {
            if let Some(kind) = leaf_kind(leaf, marks) {
                let next = SemToken { span: leaf_span(leaf, offset), kind };
                assert(next.span.start == offset + leaf.start);
                assert(next.span.end == offset + leaf.end);
                lemma_push_apart(acc, next, offset + leaf.start);
            } else {
                assert(ends_by(acc, offset + leaf.end));
            }
        },
        ElementView::Node(node) => {
            lemma_tokens_in(
                schema,
                node.children,
                offset,
                inner_scope(schema, scope, node),
                header_marks(scope, node),
                acc,
                node.start,
                node.end,
            );
        },
    }
}

proof fn lemma_tokens_in(
    schema: Schema,
    elements: Seq<ElementView>,
    offset: int,
    scope: ScopeView,
    marks: Seq<(int, SemKind)>,
    acc: Seq<SemToken>,
    start: int,
    end: int,
)
    requires
        tiled(elements, start, end),
        0 <= offset,
        0 <= start,
        offset + end <= u32::MAX,
        apart(acc),
        ends_by(acc, offset + start),
    ensures
        apart(tokens_in(schema, elements, offset, scope, marks, acc)),
        ends_by(tokens_in(schema, elements, offset, scope, marks, acc), offset + end),
    decreases elements,
{
    if elements.len() > 0 {
        let last = elements.last();
        let middle = extent(last).0;
        assert(well_placed(last));
        lemma_tiled_order(elements.drop_last(), start, middle);
        lemma_tokens_in(
            schema,
            elements.drop_last(),
            offset,
            scope,
            marks,
            acc,
            start,
            middle,
        );
        let before = tokens_in(schema, elements.drop_last(), offset, scope, marks, acc);
        lemma_element_tokens(schema, last, offset, scope, marks, before);
    }
}

proof fn lemma_document_tokens(
    schema: Schema,
    children: Seq<ChildView>,
    range: Option<Span>,
    end: int,
)
    requires
        document_tiled(children, end),
        end <= u32::MAX,
    ensures
        0 <= end,
        apart(tokens_of(schema, children, range)),
        ends_by(tokens_of(schema, children, range), end),
    decreases children.len(),
{
    if children.len() > 0 {
        let last = children.last();
        lemma_document_tokens(schema, children.drop_last(), range, last.offset);
        let before = tokens_of(schema, children.drop_last(), range);
        lemma_element_tokens(
            schema,
            last.element,
            last.offset,
            ScopeView::Unknown,
            Seq::empty(),
            before,
        );
        assert(ends_by(before, end));
    }
}

/// Law: the semantic tokens of a parsed text are non-empty, inside the text,
/// sorted by start offset and non-overlapping, for the whole text and for any
/// range of it.
pub proof fn semantic_tokens_are_sorted<O: OpenerOracle>(
    oracle: O,
    schema: Schema,
    text: Seq<char>,
    range: Option<Span>,
)
    requires
        blen(text) <= u32::MAX,
    ensures
        apart(tokens_of(schema, parse_text(oracle, text).children, range)),
        ends_by(tokens_of(schema, parse_text(oracle, text).children, range), blen(text) as int),
{
    parse_tiles_the_text(oracle, text);
    lemma_document_tokens(schema, parse_text(oracle, text).children, range, blen(text) as int);
}

proof fn lemma_whole_range(schema: Schema, children: Seq<ChildView>, end: int, range: Span)
    requires
        document_tiled(children, end),
        range.start == 0,
        end <= range.end,
    ensures
        0 <= end,
        tokens_of(schema, children, Some(range)) == tokens_of(schema, children, None),
    decreases children.len(),
{
    if children.len() > 0 {
        let last = children.last();
        lemma_whole_range(schema, children.drop_last(), last.offset, range);
        assert(well_placed(last.element));
        assert(touches(last, range));
    }
}

/// Law: over the whole document, the tokens of a range are all the tokens.
pub proof fn whole_range_is_everything<O: OpenerOracle>(
    oracle: O,
    schema: Schema,
    text: Seq<char>,
    range: Span,
)
    requires
        range.start == 0,
        blen(text) <= range.end,
    ensures
        tokens_of(schema, parse_text(oracle, text).children, Some(range)) == tokens_of(
            schema,
            parse_text(oracle, text).children,
            None,
        ),
{
    parse_tiles_the_text(oracle, text);
    lemma_whole_range(schema, parse_text(oracle, text).children, blen(text) as int, range);
}

} // verus!
