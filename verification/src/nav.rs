//! Navigation helpers: resolve what schema entity sits under a byte offset, for
//! go-to-definition and hover.

use vstd::prelude::*;
use vstd::string::*;

use crate::analyzer::{Analyzer, Span};
use crate::ast::{leaf_views, node_views, Block, Field};
use crate::index::{rebase, span_at};
use crate::kind::SyntaxKind;
use crate::lexer::byte_len;
use crate::model::{path_scope, scope_at};
use crate::outline::leaf_span;
use crate::parser::{child_views, Parse};
use crate::position::{path_at, path_of, Bias, PathView};
use crate::schema::{block_named, RefKind, Schema, ValueType};
use crate::semantic::field_type;
use crate::text::{
    blen, first_char, quotes_trimmed, same_ignoring_case, split_first, split_once, trim_quotes,
};
use crate::tree::{LeafView, SyntaxNode, SyntaxToken};

verus! {

/// A reference occurrence: the referenced kind, the name, and its span.
#[derive(Debug)]
pub struct ReferenceAt {
    pub kind: RefKind,
    pub name: String,
    pub span: Span,
}

#[verifier::ext_equal]
pub struct ReferenceView {
    pub kind: RefKind,
    pub name: Seq<char>,
    pub span: Span,
}

impl View for ReferenceAt {
    type V = ReferenceView;

    open spec fn view(&self) -> ReferenceView {
        ReferenceView { kind: self.kind, name: self.name@, span: self.span }
    }
}

pub open spec fn opt_reference(out: Option<ReferenceAt>) -> Option<ReferenceView> {
    match out {
        Some(reference) => Some(reference.view()),
        None => None,
    }
}

/// What the token under the cursor means, for hover.
pub enum HoverInfo<'a> {
    Block { name: String, span: Span },
    Field { name: String, ty: &'a ValueType, parse_fn: String, span: Span },
}

pub enum HoverView {
    Block { name: Seq<char>, span: Span },
    Field { name: Seq<char>, ty: ValueType, parse_fn: Seq<char>, span: Span },
}

impl<'a> HoverInfo<'a> {
    pub open spec fn view(&self) -> HoverView {
        match self {
            HoverInfo::Block { name, span } => HoverView::Block { name: name@, span: *span },
            HoverInfo::Field { name, ty, parse_fn, span } => HoverView::Field {
                name: name@,
                ty: **ty,
                parse_fn: parse_fn@,
                span: *span,
            },
        }
    }
}

pub open spec fn opt_hover(out: Option<HoverInfo<'_>>) -> Option<HoverView> {
    match out {
        Some(hover) => Some(hover.view()),
        None => None,
    }
}

/// A word or string.
pub open spec fn is_text(kind: SyntaxKind) -> bool {
    kind == SyntaxKind::WORD || kind == SyntaxKind::STRING
}

/// The same token of one element.
pub open spec fn same_place(a: LeafView, b: LeafView) -> bool {
    a.start == b.start && a.end == b.end
}

/// The position of a token in a list, or the length of the list.
pub open spec fn place_in(tokens: Seq<LeafView>, token: LeafView, i: int) -> int
    decreases tokens.len() - i,
{
    if i < 0 || i >= tokens.len() || same_place(tokens[i], token) {
        i
    } else {
        place_in(tokens, token, i + 1)
    }
}

/// The texts of tokens, without quotes.
pub open spec fn inputs(tokens: Seq<LeafView>) -> Seq<Seq<char>> {
    Seq::new(tokens.len(), |i: int| quotes_trimmed(tokens[i].text))
}

/// Whether `text` is the prefix of a prefixed value, written as a token of its
/// own.
pub open spec fn is_prefix(text: Seq<char>, prefix: Seq<char>) -> bool {
    text.len() > 0 && text.last() == ':' && same_ignoring_case(text.drop_last(), prefix)
}

/// The type of token `pos` of a token list, where the types from `k` on
/// describe the tokens from `i` on. A prefix written on its own describes the
/// token after it.
pub open spec fn listed_type(
    specs: Seq<ValueType>,
    k: int,
    input: Seq<Seq<char>>,
    i: int,
    pos: int,
) -> Option<ValueType>
    decreases specs.len() - k,
{
    if k < 0 || k >= specs.len() || i > pos {
        None
    } else {
        match specs[k] {
            ValueType::Prefixed { prefix, value_type } => if 0 <= i < input.len() && is_prefix(
                input[i],
                prefix@,
            ) {
                if i == pos {
                    Some(specs[k])
                } else if i + 1 == pos {
                    Some(*value_type)
                } else {
                    listed_type(specs, k + 1, input, i + 2, pos)
                }
            } else if i == pos {
                Some(specs[k])
            } else {
                listed_type(specs, k + 1, input, i + 1, pos)
            },
            _ => if i == pos {
                Some(specs[k])
            } else {
                listed_type(specs, k + 1, input, i + 1, pos)
            },
        }
    }
}

/// The type of token `pos` among the value tokens of a field.
pub open spec fn input_type(ty: ValueType, input: Seq<Seq<char>>, pos: int) -> Option<ValueType> {
    match ty {
        ValueType::TokenList { tokens } => listed_type(tokens@, 0, input, 0, pos),
        ValueType::Prefixed { .. } => listed_type(seq![ty], 0, input, 0, pos),
        ValueType::ReferenceList { .. } => Some(ty),
        ValueType::BitFlags { .. } => Some(ty),
        ValueType::AsciiStringList => Some(ty),
        ValueType::Unknown { .. } => Some(ty),
        _ => if pos == 0 {
            Some(ty)
        } else {
            None
        },
    }
}

/// The kind that a reference type refers to.
pub open spec fn referred_kind(ty: ValueType) -> Option<RefKind> {
    match ty {
        ValueType::Reference { ref_kind } => Some(ref_kind),
        ValueType::ReferenceList { ref_kind } => Some(ref_kind),
        _ => None,
    }
}

/// The reference that a value token of a given type makes.
pub open spec fn token_reference(ty: ValueType, token: LeafView, offset: int) -> Option<
    ReferenceView,
> {
    let text = quotes_trimmed(token.text);
    match ty {
        ValueType::Prefixed { prefix, value_type } => match (
            referred_kind(*value_type),
            split_first(text, ':'),
        ) {
            (Some(kind), Some((actual, name))) => if same_ignoring_case(actual, prefix@)
                && name.len() > 0 {
                let quote: u32 = if token.text.len() > 0 && token.text[0] == '"' {
                    1
                } else {
                    0
                };
                let start = (token.start as u32).wrapping_add(quote).wrapping_add(
                    blen(actual) as u32,
                ).wrapping_add(1);
                Some(
                    ReferenceView {
                        kind,
                        name,
                        span: span_at(offset as u32, start, start.wrapping_add(blen(name) as u32)),
                    },
                )
            } else {
                None
            },
            _ => None,
        },
        _ => match referred_kind(ty) {
            Some(kind) => Some(
                ReferenceView { kind, name: text, span: leaf_span(token, offset) },
            ),
            None => None,
        },
    }
}

/// The reference at the end of a path: a value token of a field whose type
/// refers to definitions.
pub open spec fn path_reference(schema: Schema, path: PathView) -> Option<ReferenceView> {
    match path.token {
        None => None,
        Some(token) => if !is_text(token.kind) || path.nodes.len() == 0 || path.nodes.last().kind
            != SyntaxKind::FIELD {
            None
        } else {
            let field = path.nodes.last();
            let values = field.values();
            let pos = place_in(values, token, 0);
            let ty = field_type(path_scope(schema, path.nodes.drop_last()), field);
            if pos >= values.len() || ty is None {
                None
            } else {
                match input_type(ty->0, inputs(values), pos) {
                    Some(element) => token_reference(element, token, path.offset),
                    None => None,
                }
            }
        },
    }
}

/// The definition at the end of a path: the name of a block that defines a
/// reference kind.
pub open spec fn path_definition(schema: Schema, path: PathView) -> Option<ReferenceView> {
    match path.token {
        None => None,
        Some(token) => if !is_text(token.kind) || path.nodes.len() == 0 || path.nodes.last().kind
            != SyntaxKind::BLOCK {
            None
        } else {
            let block = path.nodes.last();
            match (block.head_word(), block.second_word()) {
                (Some(keyword), Some(name)) => if same_place(name, token) {
                    match block_named(schema.blocks@, keyword.text) {
                        Some(known) => match known.defines {
                            Some(kind) => Some(
                                ReferenceView {
                                    kind,
                                    name: token.text,
                                    span: leaf_span(token, path.offset),
                                },
                            ),
                            None => None,
                        },
                        None => None,
                    }
                } else {
                    None
                },
                _ => None,
            }
        },
    }
}

/// The hover information at the end of a path: a block keyword or a known
/// field key.
pub open spec fn path_hover(schema: Schema, path: PathView) -> Option<HoverView> {
    match path.token {
        None => None,
        Some(token) => if !is_text(token.kind) || path.nodes.len() == 0 {
            None
        } else {
            let node = path.nodes.last();
            match node.head_word() {
                Some(head) => if !same_place(head, token) {
                    None
                } else if node.kind == SyntaxKind::BLOCK {
                    Some(
                        HoverView::Block { name: token.text, span: leaf_span(token, path.offset) },
                    )
                } else if node.kind == SyntaxKind::FIELD {
                    match path_scope(schema, path.nodes.drop_last()).field(head.text) {
                        Some(field) => Some(
                            HoverView::Field {
                                name: field.name@,
                                ty: field.value_type,
                                parse_fn: field.parse_fn@,
                                span: leaf_span(token, path.offset),
                            },
                        ),
                        None => None,
                    }
                } else {
                    None
                },
                None => None,
            }
        },
    }
}

fn is_text_token(token: &SyntaxToken) -> (yes: bool)
    ensures
        yes == is_text(token.kind),
{
    token.kind == SyntaxKind::WORD || token.kind == SyntaxKind::STRING
}

fn is_same_place(a: &SyntaxToken, b: &SyntaxToken) -> (yes: bool)
    ensures
        yes == same_place(a.view(), b.view()),
{
    a.start == b.start && a.end == b.end
}

/// The nodes of a path around the innermost one.
pub(crate) fn outer_nodes<'a>(nodes: &Vec<&'a SyntaxNode>) -> (out: Vec<&'a SyntaxNode>)
    requires
        nodes@.len() > 0,
    ensures
        out@ == nodes@.drop_last(),
        node_views(out@) == node_views(nodes@).drop_last(),
{
    let mut out: Vec<&'a SyntaxNode> = Vec::new();
    let mut i: usize = 0;
    while nodes.len() - i > 1
        invariant
            i < nodes@.len(),
            out@ == nodes@.take(i as int),
        decreases nodes@.len() - i,
    {
        out.push(nodes[i]);
        assert(out@ =~= nodes@.take(i + 1));
        i += 1;
    }
    assert(out@ =~= nodes@.drop_last());
    assert(node_views(out@) =~= node_views(nodes@).drop_last());
    out
}

pub(crate) fn ends_with_colon(text: &str, prefix: &str) -> (yes: bool)
    ensures
        yes == is_prefix(text@, prefix@),
{
    match crate::text::last_char(text) {
        Some(':') => crate::text::drop_last_char(text).eq_ignore_ascii_case(prefix),
        _ => false,
    }
}

#[verifier::loop_isolation(false)]
fn listed_type_at<'a>(
    specs: &'a Vec<ValueType>,
    values: &Vec<&SyntaxToken>,
    pos: usize,
) -> (out: Option<&'a ValueType>)
    requires
        pos < values@.len(),
    ensures
        match out {
            Some(ty) => listed_type(specs@, 0, inputs(leaf_views(values@)), 0, pos as int) == Some(
                *ty,
            ),
            None => listed_type(specs@, 0, inputs(leaf_views(values@)), 0, pos as int) is None,
        },
{
    let ghost input = inputs(leaf_views(values@));
    let mut k: usize = 0;
    let mut i: usize = 0;
    while k < specs.len() && i <= pos
        invariant
            k <= specs@.len(),
            i <= pos + 1,
            pos < values@.len(),
            input == inputs(leaf_views(values@)),
            listed_type(specs@, k as int, input, i as int, pos as int) == listed_type(
                specs@,
                0,
                input,
                0,
                pos as int,
            ),
        decreases specs@.len() - k,
    {
        let mut step: usize = 1;
        match &specs[k] {
            ValueType::Prefixed { prefix, value_type } => {
                let text = trim_quotes(values[i].text.as_str());
                assert(input[i as int] == text@);
                if ends_with_colon(text, prefix.as_str()) {
                    if i == pos {
                        return Some(&specs[k]);
                    }
                    if pos - i == 1 {
                        return Some(value_type);
                    }
                    step = 2;
                } else if i == pos {
                    return Some(&specs[k]);
                }
            },
            _ => {
                if i == pos {
                    return Some(&specs[k]);
                }
            },
        }
        i = i + step;
        k += 1;
    }
    None
}

pub(crate) fn type_at<'a>(ty: &'a ValueType, values: &Vec<&SyntaxToken>, pos: usize) -> (out: Option<
    &'a ValueType,
>)
    requires
        pos < values@.len(),
    ensures
        match out {
            Some(found) => input_type(*ty, inputs(leaf_views(values@)), pos as int) == Some(*found),
            None => input_type(*ty, inputs(leaf_views(values@)), pos as int) is None,
        },
{
    let ghost input = inputs(leaf_views(values@));
    match ty {
        ValueType::TokenList { tokens } => listed_type_at(tokens, values, pos),
        ValueType::Prefixed { prefix, value_type } => {
            proof {
                reveal_with_fuel(listed_type, 3);
            }
            let text = trim_quotes(values[0].text.as_str());
            assert(input[0] == text@);
            if pos == 0 {
                Some(ty)
            } else if ends_with_colon(text, prefix.as_str()) && pos == 1 {
                Some(value_type)
            } else {
                None
            }
        },
        ValueType::ReferenceList { .. }
        | ValueType::BitFlags { .. }
        | ValueType::AsciiStringList
        | ValueType::Unknown { .. } => Some(ty),
        _ => if pos == 0 {
            Some(ty)
        } else {
            None
        },
    }
}

fn find_place(tokens: &Vec<&SyntaxToken>, token: &SyntaxToken) -> (at: usize)
    ensures
        at == place_in(leaf_views(tokens@), token.view(), 0),
        at <= tokens@.len(),
{
    let ghost all = leaf_views(tokens@);
    let mut i: usize = 0;
    while i < tokens.len() && !is_same_place(tokens[i], token)
        invariant
            i <= tokens@.len(),
            all == leaf_views(tokens@),
            place_in(all, token.view(), i as int) == place_in(all, token.view(), 0),
        decreases tokens@.len() - i,
    {
        i += 1;
    }
    i
}

fn kind_referred(ty: &ValueType) -> (out: Option<RefKind>)
    ensures
        out == referred_kind(*ty),
{
    match ty {
        ValueType::Reference { ref_kind } => Some(*ref_kind),
        ValueType::ReferenceList { ref_kind } => Some(*ref_kind),
        _ => None,
    }
}

/// The reference that a value token of a given type makes.
pub(crate) fn reference_in(ty: &ValueType, token: &SyntaxToken, offset: u32) -> (out: Option<
    ReferenceAt,
>)
    ensures
        opt_reference(out) == token_reference(*ty, token.view(), offset as int),
{
    let text = trim_quotes(token.text.as_str());
    match ty {
        ValueType::Prefixed { prefix, value_type } => {
            let kind = match kind_referred(value_type) {
                Some(kind) => kind,
                None => {
                    return None;
                },
            };
            let (actual, name) = match split_once(text, ':') {
                Some(parts) => parts,
                None => {
                    return None;
                },
            };
            if !actual.eq_ignore_ascii_case(prefix.as_str()) {
                return None;
            }
            if first_char(name).is_none() {
                return None;
            }
            let quote: u32 = match first_char(token.text.as_str()) {
                Some('"') => 1,
                _ => 0,
            };
            let start = token.start.wrapping_add(quote).wrapping_add(
                byte_len(actual) as u32,
            ).wrapping_add(1);
            let end = start.wrapping_add(byte_len(name) as u32);
            Some(ReferenceAt { kind, name: name.to_owned(), span: rebase(offset, start, end) })
        },
        _ => match kind_referred(ty) {
            Some(kind) => Some(
                ReferenceAt {
                    kind,
                    name: text.to_owned(),
                    span: rebase(offset, token.start, token.end),
                },
            ),
            None => None,
        },
    }
}

/// If a reference-typed field value sits under `offset`, resolve it. Handles
/// single references, every token of a reference list, and reference-typed
/// elements of a token list.
pub fn reference_at(analyzer: &Analyzer, parse: &Parse, offset: u32) -> (out: Option<ReferenceAt>)
    ensures
        opt_reference(out) == path_reference(
            analyzer.schema,
            path_of(
                child_views(parse.children@),
                parse.len as int,
                offset as int,
                Bias::Right,
            ),
        ),
{
    let path = path_at(parse, offset, Bias::Right);
    let token = match path.token {
        Some(token) => token,
        None => {
            return None;
        },
    };
    let n = path.nodes.len();
    if !is_text_token(token) || n == 0 {
        return None;
    }
    let node = path.nodes[n - 1];
    let field = match Field::cast(node) {
        Some(field) => field,
        None => {
            return None;
        },
    };
    // The token must be one of the value tokens, not the key.
    let values = field.value_tokens();
    let pos = find_place(&values, token);
    if pos >= values.len() {
        return None;
    }
    let key = match field.key() {
        Some(key) => key,
        None => {
            return None;
        },
    };
    let scope = scope_at(analyzer, &outer_nodes(&path.nodes));
    let ty = match scope.field(key.text.as_str()) {
        Some(declared) => &declared.value_type,
        None => {
            return None;
        },
    };
    match type_at(ty, &values, pos) {
        Some(element) => reference_in(element, token, path.offset),
        None => None,
    }
}

/// If `offset` sits on a definition's name token (the second header word of a
/// block whose keyword defines a reference kind), resolve it. Together with
/// [`reference_at`] this powers find-references and rename from either end of
/// an edge.
pub fn definition_at(analyzer: &Analyzer, parse: &Parse, offset: u32) -> (out: Option<ReferenceAt>)
    ensures
        opt_reference(out) == path_definition(
            analyzer.schema,
            path_of(
                child_views(parse.children@),
                parse.len as int,
                offset as int,
                Bias::Right,
            ),
        ),
{
    let path = path_at(parse, offset, Bias::Right);
    let token = match path.token {
        Some(token) => token,
        None => {
            return None;
        },
    };
    let n = path.nodes.len();
    if !is_text_token(token) || n == 0 {
        return None;
    }
    let block = match Block::cast(path.nodes[n - 1]) {
        Some(block) => block,
        None => {
            return None;
        },
    };
    match (block.keyword(), block.name()) {
        (Some(keyword), Some(name)) => {
            if !is_same_place(name, token) {
                return None;
            }
            match analyzer.block(keyword.text.as_str()) {
                Some(known) => match known.defines {
                    Some(kind) => Some(
                        ReferenceAt {
                            kind,
                            name: token.text.clone(),
                            span: rebase(path.offset, token.start, token.end),
                        },
                    ),
                    None => None,
                },
                None => None,
            }
        },
        _ => None,
    }
}

/// Resolve hover information for the token under `offset`.
pub fn hover_at<'a>(analyzer: &'a Analyzer, parse: &Parse, offset: u32) -> (out: Option<
    HoverInfo<'a>,
>)
    ensures
        opt_hover(out) == path_hover(
            analyzer.schema,
            path_of(
                child_views(parse.children@),
                parse.len as int,
                offset as int,
                Bias::Right,
            ),
        ),
{
    let path = path_at(parse, offset, Bias::Right);
    let token = match path.token {
        Some(token) => token,
        None => {
            return None;
        },
    };
    let n = path.nodes.len();
    if !is_text_token(token) || n == 0 {
        return None;
    }
    let node = path.nodes[n - 1];
    let head = match Field(node).key() {
        Some(head) => head,
        None => {
            return None;
        },
    };
    if !is_same_place(head, token) {
        return None;
    }
    let span = rebase(path.offset, token.start, token.end);
    match node.kind {
        SyntaxKind::BLOCK => Some(HoverInfo::Block { name: token.text.clone(), span }),
        SyntaxKind::FIELD => {
            let scope = scope_at(analyzer, &outer_nodes(&path.nodes));
            match scope.field(head.text.as_str()) {
                Some(field) => Some(
                    HoverInfo::Field {
                        name: field.name.clone(),
                        ty: &field.value_type,
                        parse_fn: field.parse_fn.clone(),
                        span,
                    },
                ),
                None => None,
            }
        },
        _ => None,
    }
}

} // verus!
