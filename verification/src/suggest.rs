//! Did-you-mean fixes: for a misspelled enum or flag member, the closest
//! members of the value set.

use vstd::prelude::*;
use vstd::string::*;

use crate::actions::{fix_views, push_fix, Fix, FixView};
use crate::analyzer::{Analyzer, Span};
use crate::ast::{leaf_views, Field};
use crate::checks::special_flag;
use crate::distance::{edit_distance, levenshtein};
use crate::index::rebase;
use crate::kind::SyntaxKind;
use crate::model::{scope_of, scope_schema, ScopeSchema, ScopeView};
use crate::order::{comes_before, precedes};
use crate::outline::{leaf_span, node_span};
use crate::parser::{child_views, ChildView, Parse};
use crate::schema::{has_member, value_set_named, Schema, ValueMember, ValueType};
use crate::semantic::field_type;
use crate::text::{cat2, cat3, slice, trim_modifiers, unsigned_flag, upper};
use crate::tree::{
    views, ElementView, LeafView, NodeView, SyntaxElement, SyntaxNode, SyntaxToken,
};

verus! {

/// A candidate: its distance and its name.
#[verifier::ext_equal]
pub struct RankView {
    pub distance: nat,
    pub name: Seq<char>,
}

/// Whether `a` ranks before `b`: it is closer, or as close and first by name.
pub open spec fn ranks_before(a: RankView, b: RankView) -> bool {
    a.distance < b.distance || (a.distance == b.distance && precedes(a.name, b.name))
}

/// Where `item` belongs in a ranked list, from `i` on: before the first entry
/// that it ranks before.
pub open spec fn rank_position(list: Seq<RankView>, item: RankView, i: int) -> int
    decreases list.len() - i,
{
    if i < 0 || i >= list.len() || ranks_before(item, list[i]) {
        i
    } else {
        rank_position(list, item, i + 1)
    }
}

/// The members within distance 2 of `word`, ranked.
pub open spec fn ranked(members: Seq<ValueMember>, word: Seq<char>) -> Seq<RankView>
    decreases members.len(),
{
    if members.len() == 0 {
        Seq::empty()
    } else {
        let rest = ranked(members.drop_last(), word);
        let name = members.last().name@;
        let item = RankView { distance: levenshtein(upper(word), upper(name)), name };
        if item.distance <= 2 {
            rest.insert(rank_position(rest, item, 0), item)
        } else {
            rest
        }
    }
}

struct Rank<'a> {
    distance: usize,
    name: &'a str,
}

impl<'a> Rank<'a> {
    spec fn view(&self) -> RankView {
        RankView { distance: self.distance as nat, name: self.name@ }
    }
}

spec fn rank_views(s: Seq<Rank<'_>>) -> Seq<RankView> {
    Seq::new(s.len(), |i: int| s[i].view())
}

proof fn lemma_rank_position(list: Seq<RankView>, item: RankView, i: int)
    requires
        0 <= i <= list.len(),
    ensures
        i <= rank_position(list, item, i) <= list.len(),
        forall|k: int|
            i <= k < rank_position(list, item, i) ==> !ranks_before(item, #[trigger] list[k]),
        rank_position(list, item, i) < list.len() ==> ranks_before(
            item,
            list[rank_position(list, item, i)],
        ),
    decreases list.len() - i,
{
    if i < list.len() && !ranks_before(item, list[i]) {
        lemma_rank_position(list, item, i + 1);
    }
}

fn insert_ranked<'a>(list: &mut Vec<Rank<'a>>, item: Rank<'a>)
    ensures
        rank_views(final(list)@) == rank_views(old(list)@).insert(
            rank_position(rank_views(old(list)@), item.view(), 0),
            item.view(),
        ),
{
    let ghost all = rank_views(list@);
    let ghost view = item.view();
    let mut i: usize = 0;
    proof {
        lemma_rank_position(all, view, 0);
    }
    while i < list.len() && !(item.distance < list[i].distance || (item.distance
        == list[i].distance && comes_before(item.name, list[i].name)))
        invariant
            i <= list@.len(),
            all == rank_views(list@),
            view == item.view(),
            rank_position(all, view, i as int) == rank_position(all, view, 0),
        decreases list@.len() - i,
    {
        assert(all[i as int] == list@[i as int].view());
        i += 1;
    }
    proof {
        if i < list@.len() {
            assert(all[i as int] == list@[i as int].view());
        }
    }
    list.insert(i, item);
    assert(rank_views(list@) =~= all.insert(i as int, view));
}

fn rank_members<'a>(members: &'a Vec<ValueMember>, word: &str) -> (out: Vec<Rank<'a>>)
    ensures
        rank_views(out@) == ranked(members@, word@),
{
    let mut out: Vec<Rank<'a>> = Vec::new();
    let mut i: usize = 0;
    assert(rank_views(out@) =~= ranked(members@.take(0), word@));
    while i < members.len()
        invariant
            i <= members@.len(),
            rank_views(out@) == ranked(members@.take(i as int), word@),
        decreases members@.len() - i,
    {
        assert(members@.take(i + 1).drop_last() =~= members@.take(i as int));
        let name = members[i].name.as_str();
        let distance = edit_distance(word, name);
        if distance <= 2 {
            insert_ranked(&mut out, Rank { distance, name });
        }
        i += 1;
    }
    assert(members@.take(i as int) =~= members@);
    out
}

/// The fixes for the first `n` candidates, after `acc`.
pub open spec fn replacements(
    list: Seq<RankView>,
    n: int,
    span: Span,
    prefix: Seq<char>,
    acc: Seq<FixView>,
) -> Seq<FixView>
    decreases n,
{
    if n <= 0 {
        acc
    } else {
        replacements(list, n - 1, span, prefix, acc).push(
            FixView {
                title: "Replace with `"@ + list[n - 1].name + "`"@,
                span,
                new_text: prefix + list[n - 1].name,
            },
        )
    }
}

/// How many candidates are offered: at most three.
pub open spec fn best_count(list: Seq<RankView>) -> int {
    if list.len() < 3 {
        list.len() as int
    } else {
        3
    }
}

/// Whether a range of the document meets `range`.
pub open spec fn meets(span: Span, range: Span) -> bool {
    range.start <= span.end && span.start <= range.end
}

/// The fixes for one value token against a value set, after `acc`.
pub open spec fn token_suggestions(
    schema: Schema,
    token: LeafView,
    offset: int,
    set: Seq<char>,
    flags: bool,
    range: Span,
    acc: Seq<FixView>,
) -> Seq<FixView> {
    let span = leaf_span(token, offset);
    let raw = if flags {
        unsigned_flag(token.text, true)
    } else {
        token.text
    };
    let prefix = token.text.take(token.text.len() - raw.len());
    if !meets(span, range) || raw.len() == 0 || (flags && special_flag(raw)) {
        acc
    } else {
        match value_set_named(schema.value_sets@, set) {
            Some(known) => if has_member(known.members@, raw) {
                acc
            } else {
                let list = ranked(known.members@, raw);
                replacements(list, best_count(list), span, prefix, acc)
            },
            None => acc,
        }
    }
}

/// The fixes for the first `n` flags of a list, after `acc`.
pub open spec fn flags_suggestions(
    schema: Schema,
    tokens: Seq<LeafView>,
    n: int,
    offset: int,
    set: Seq<char>,
    range: Span,
    acc: Seq<FixView>,
) -> Seq<FixView>
    decreases n,
{
    if n <= 0 {
        acc
    } else {
        token_suggestions(
            schema,
            tokens[n - 1],
            offset,
            set,
            true,
            range,
            flags_suggestions(schema, tokens, n - 1, offset, set, range, acc),
        )
    }
}

/// The fixes for the first `n` tokens of a token list, after `acc`.
pub open spec fn listed_suggestions(
    schema: Schema,
    specs: Seq<ValueType>,
    tokens: Seq<LeafView>,
    n: int,
    offset: int,
    range: Span,
    acc: Seq<FixView>,
) -> Seq<FixView>
    decreases n,
{
    if n <= 0 {
        acc
    } else {
        let rest = listed_suggestions(schema, specs, tokens, n - 1, offset, range, acc);
        match specs[n - 1] {
            ValueType::Enum { value_set } => token_suggestions(
                schema,
                tokens[n - 1],
                offset,
                value_set@,
                false,
                range,
                rest,
            ),
            ValueType::BitFlags { value_set } => token_suggestions(
                schema,
                tokens[n - 1],
                offset,
                value_set@,
                true,
                range,
                rest,
            ),
            _ => rest,
        }
    }
}

pub open spec fn shorter(a: nat, b: nat) -> int {
    if a < b {
        a as int
    } else {
        b as int
    }
}

/// The fixes for a field, after `acc`.
pub open spec fn field_suggestions(
    schema: Schema,
    scope: ScopeView,
    node: NodeView,
    offset: int,
    range: Span,
    acc: Seq<FixView>,
) -> Seq<FixView> {
    let tokens = node.values();
    match field_type(scope, node) {
        Some(ValueType::Enum { value_set }) => if tokens.len() > 0 {
            token_suggestions(schema, tokens[0], offset, value_set@, false, range, acc)
        } else {
            acc
        },
        Some(ValueType::BitFlags { value_set }) => flags_suggestions(
            schema,
            tokens,
            tokens.len() as int,
            offset,
            value_set@,
            range,
            acc,
        ),
        Some(ValueType::TokenList { tokens: specs }) => listed_suggestions(
            schema,
            specs@,
            tokens,
            shorter(specs@.len(), tokens.len()),
            offset,
            range,
            acc,
        ),
        _ => acc,
    }
}

/// The fixes in an element, after `acc`. `scope` is the schema around it.
pub open spec fn element_suggestions(
    schema: Schema,
    e: ElementView,
    offset: int,
    scope: ScopeView,
    range: Span,
    acc: Seq<FixView>,
) -> Seq<FixView>
    decreases e,
{
    match e {
        ElementView::Token(_) => acc,
        ElementView::Node(node) => if !meets(node_span(node, offset), range) {
            acc
        } else if node.kind == SyntaxKind::FIELD {
            field_suggestions(schema, scope, node, offset, range, acc)
        } else if node.kind == SyntaxKind::BLOCK || node.kind == SyntaxKind::MODULE {
            suggestions_in(
                schema,
                node.children,
                offset,
                scope_of(schema, scope, node),
                range,
                acc,
            )
        } else {
            acc
        },
    }
}

pub open spec fn suggestions_in(
    schema: Schema,
    elements: Seq<ElementView>,
    offset: int,
    scope: ScopeView,
    range: Span,
    acc: Seq<FixView>,
) -> Seq<FixView>
    decreases elements,
{
    if elements.len() == 0 {
        acc
    } else {
        element_suggestions(
            schema,
            elements.last(),
            offset,
            scope,
            range,
            suggestions_in(schema, elements.drop_last(), offset, scope, range, acc),
        )
    }
}

/// The did-you-mean fixes of a document, after `acc`.
pub open spec fn suggestions_of(
    schema: Schema,
    children: Seq<ChildView>,
    range: Span,
    acc: Seq<FixView>,
) -> Seq<FixView>
    decreases children.len(),
{
    if children.len() == 0 {
        acc
    } else {
        element_suggestions(
            schema,
            children.last().element,
            children.last().offset,
            ScopeView::Unknown,
            range,
            suggestions_of(schema, children.drop_last(), range, acc),
        )
    }
}

pub(crate) fn meets_range(span: Span, range: Span) -> (yes: bool)
    ensures
        yes == meets(span, range),
{
    range.start <= span.end && span.start <= range.end
}

proof fn lemma_unsigned_suffix(s: Seq<char>, minus: bool)
    ensures
        unsigned_flag(s, minus).len() <= s.len(),
        s.skip(s.len() - unsigned_flag(s, minus).len()) == unsigned_flag(s, minus),
        s == s.take(s.len() - unsigned_flag(s, minus).len()) + unsigned_flag(s, minus),
    decreases s.len(),
{
    let raw = unsigned_flag(s, minus);
    if s.len() > 0 && (s[0] == '+' || (minus && s[0] == '-')) {
        lemma_unsigned_suffix(s.drop_first(), minus);
        assert(s.skip(s.len() - raw.len()) =~= s.drop_first().skip(
            s.drop_first().len() - raw.len(),
        ));
    } else {
        assert(s.skip(0) =~= s);
    }
    assert(s =~= s.take(s.len() - raw.len()) + s.skip(s.len() - raw.len()));
}

/// The modifiers in front of a flag.
fn modifiers<'a>(text: &'a str, raw: &str) -> (out: &'a str)
    requires
        raw@ == unsigned_flag(text@, true),
    ensures
        out@ == text@.take(text@.len() - raw@.len()),
{
    proof {
        lemma_unsigned_suffix(text@, true);
        crate::text::lemma_encode_concat(text@.take(text@.len() - raw@.len()), raw@);
        assert(text@.take(0) =~= Seq::<char>::empty());
    }
    let len = crate::lexer::byte_len(text) - crate::lexer::byte_len(raw);
    let ghost n = text@.len() - raw@.len();
    let out = slice(text, 0, len, Ghost(0), Ghost(n as int));
    assert(text@.subrange(0, n as int) =~= text@.take(n as int));
    out
}

fn suggest_for_token(
    analyzer: &Analyzer,
    token: &SyntaxToken,
    offset: u32,
    set: &str,
    flags: bool,
    range: Span,
    out: &mut Vec<Fix>,
)
    ensures
        fix_views(final(out)@) == token_suggestions(
            analyzer.schema,
            token.view(),
            offset as int,
            set@,
            flags,
            range,
            fix_views(old(out)@),
        ),
{
    let span = rebase(offset, token.start, token.end);
    if !meets_range(span, range) {
        return ;
    }
    let text = token.text.as_str();
    let raw = if flags {
        trim_modifiers(text, true)
    } else {
        text
    };
    let prefix = if flags {
        modifiers(text, raw)
    } else {
        ""
    };
    proof {
        if !flags {
            reveal_strlit("");
            assert(prefix@ =~= text@.take(0));
        }
    }
    if crate::text::first_char(raw).is_none() {
        return ;
    }
    if flags && (raw.eq_ignore_ascii_case("NONE") || raw.eq_ignore_ascii_case("ALL")) {
        return ;
    }
    let known = match analyzer.value_set(set) {
        Some(known) => known,
        None => {
            return ;
        },
    };
    if known.contains(raw) {
        return ;
    }
    let list = rank_members(&known.members, raw);
    let ghost all = ranked(known.members@, raw@);
    let ghost start = fix_views(out@);
    let mut i: usize = 0;
    assert(rank_views(list@).len() == list@.len());
    while i < list.len() && i < 3
        invariant
            i <= list@.len(),
            i <= 3,
            all == rank_views(list@),
            fix_views(out@) == replacements(all, i as int, span, prefix@, start),
        decreases list@.len() - i,
    {
        assert(all[i as int] == list@[i as int].view());
        let name = list[i].name;
        push_fix(out, cat3("Replace with `", name, "`"), span, cat2(prefix, name));
        i += 1;
    }
}

fn suggest_in_field<'a>(
    analyzer: &'a Analyzer,
    scope: ScopeSchema<'a>,
    node: &SyntaxNode,
    offset: u32,
    range: Span,
    out: &mut Vec<Fix>,
)
    ensures
        fix_views(final(out)@) == field_suggestions(
            analyzer.schema,
            scope.view(),
            node.view(),
            offset as int,
            range,
            fix_views(old(out)@),
        ),
{
    let field = Field(node);
    let key = match field.key() {
        Some(key) => key,
        None => {
            return ;
        },
    };
    let declared = match scope.field(key.text.as_str()) {
        Some(declared) => declared,
        None => {
            return ;
        },
    };
    let tokens = field.value_tokens();
    let ghost all = leaf_views(tokens@);
    let ghost start = fix_views(out@);
    match &declared.value_type {
        ValueType::Enum { value_set } => {
            if tokens.len() > 0 {
                suggest_for_token(
                    analyzer,
                    tokens[0],
                    offset,
                    value_set.as_str(),
                    false,
                    range,
                    out,
                );
            }
        },
        ValueType::BitFlags { value_set } => {
            let mut i: usize = 0;
            while i < tokens.len()
                invariant
                    i <= tokens@.len(),
                    all == leaf_views(tokens@),
                    fix_views(out@) == flags_suggestions(
                        analyzer.schema,
                        all,
                        i as int,
                        offset as int,
                        value_set@,
                        range,
                        start,
                    ),
                decreases tokens@.len() - i,
            {
                assert(all[i as int] == tokens@[i as int].view());
                suggest_for_token(
                    analyzer,
                    tokens[i],
                    offset,
                    value_set.as_str(),
                    true,
                    range,
                    out,
                );
                i += 1;
            }
        },
        ValueType::TokenList { tokens: specs } => {
            let mut i: usize = 0;
            while i < tokens.len() && i < specs.len()
                invariant
                    i <= tokens@.len(),
                    i <= specs@.len(),
                    all == leaf_views(tokens@),
                    fix_views(out@) == listed_suggestions(
                        analyzer.schema,
                        specs@,
                        all,
                        i as int,
                        offset as int,
                        range,
                        start,
                    ),
                decreases tokens@.len() - i,
            {
                assert(all[i as int] == tokens@[i as int].view());
                match &specs[i] {
                    ValueType::Enum { value_set } => {
                        suggest_for_token(
                            analyzer,
                            tokens[i],
                            offset,
                            value_set.as_str(),
                            false,
                            range,
                            out,
                        );
                    },
                    ValueType::BitFlags { value_set } => {
                        suggest_for_token(
                            analyzer,
                            tokens[i],
                            offset,
                            value_set.as_str(),
                            true,
                            range,
                            out,
                        );
                    },
                    _ => {},
                }
                i += 1;
            }
        },
        _ => {},
    }
}

fn suggest_in_node<'a>(
    analyzer: &'a Analyzer,
    node: &SyntaxNode,
    offset: u32,
    scope: ScopeSchema<'a>,
    range: Span,
    out: &mut Vec<Fix>,
)
    ensures
        fix_views(final(out)@) == element_suggestions(
            analyzer.schema,
            ElementView::Node(node.view()),
            offset as int,
            scope.view(),
            range,
            fix_views(old(out)@),
        ),
    decreases node,
{
    if !meets_range(rebase(offset, node.start, node.end), range) {
        return ;
    }
    match node.kind {
        SyntaxKind::FIELD => {
            suggest_in_field(analyzer, scope, node, offset, range, out);
            return ;
        },
        SyntaxKind::BLOCK | SyntaxKind::MODULE => {},
        _ => {
            return ;
        },
    }
    let inner = scope_schema(analyzer, scope, node);
    let ghost start = fix_views(out@);
    let ghost all = views(node.children@);
    let mut i: usize = 0;
    assert(all.take(0) =~= Seq::<ElementView>::empty());
    while i < node.children.len()
        invariant
            i <= node.children@.len(),
            all == views(node.children@),
            fix_views(out@) == suggestions_in(
                analyzer.schema,
                all.take(i as int),
                offset as int,
                inner.view(),
                range,
                start,
            ),
        decreases node.children@.len() - i,
    {
        proof {
            assert(all.take(i + 1).drop_last() =~= all.take(i as int));
            assert(all.take(i + 1).last() == node.children@[i as int].view());
            assert(decreases_to!(node => node.children));
            assert(decreases_to!(node.children@ => node.children@[i as int]));
        }
        let ghost before = fix_views(out@);
        if let SyntaxElement::Node(child) = &node.children[i] {
            assert(decreases_to!(node.children@[i as int] => node.children@[i as int]->Node_0));
            suggest_in_node(analyzer, child, offset, inner, range, out);
        }
        assert(fix_views(out@) == element_suggestions(
            analyzer.schema,
            all[i as int],
            offset as int,
            inner.view(),
            range,
            before,
        ));
        i += 1;
    }
    assert(all.take(i as int) =~= all);
}

/// For misspelled enum / bitflag members under `range`, offer the closest
/// value-set members (edit distance at most 2, best 3).
pub(crate) fn suggest_members(
    analyzer: &Analyzer,
    parse: &Parse,
    range: Span,
    out: &mut Vec<Fix>,
)
    ensures
        fix_views(final(out)@) == suggestions_of(
            analyzer.schema,
            child_views(parse.children@),
            range,
            fix_views(old(out)@),
        ),
{
    let ghost all = child_views(parse.children@);
    let ghost start = fix_views(out@);
    let mut i: usize = 0;
    assert(all.take(0) =~= Seq::<ChildView>::empty());
    while i < parse.children.len()
        invariant
            i <= parse.children@.len(),
            all == child_views(parse.children@),
            fix_views(out@) == suggestions_of(analyzer.schema, all.take(i as int), range, start),
        decreases parse.children@.len() - i,
    {
        let child = &parse.children[i];
        proof {
            assert(all.take(i + 1).drop_last() =~= all.take(i as int));
            assert(all.take(i + 1).last() == child.view());
        }
        let ghost before = fix_views(out@);
        let element: &SyntaxElement = &child.element;
        if let SyntaxElement::Node(node) = element {
            suggest_in_node(analyzer, node, child.offset, ScopeSchema::Unknown, range, out);
        }
        assert(fix_views(out@) == element_suggestions(
            analyzer.schema,
            child.element.view(),
            child.offset as int,
            ScopeView::Unknown,
            range,
            before,
        ));
        i += 1;
    }
    assert(all.take(i as int) =~= all);
}

// ---------------------------------------------------------------------------
// Laws
// ---------------------------------------------------------------------------
/// No entry ranks before an earlier one.
pub open spec fn in_rank_order(list: Seq<RankView>) -> bool {
    forall|i: int, j: int| #![trigger list[i], list[j]]
        0 <= i < j < list.len() ==> !ranks_before(list[j], list[i])
}

proof fn lemma_ranks_transitive(a: RankView, b: RankView, c: RankView)
    requires
        ranks_before(a, b),
        ranks_before(b, c),
    ensures
        ranks_before(a, c),
{
    if a.distance == b.distance && b.distance == c.distance {
        crate::order::order_is_transitive(a.name, b.name, c.name);
    }
}

proof fn lemma_ranks_total(a: RankView, b: RankView)
    ensures
        a == b || ranks_before(a, b) || ranks_before(b, a),
        !(ranks_before(a, b) && ranks_before(b, a)),
{
    if a.distance == b.distance {
        if a.name != b.name {
            crate::order::order_is_total(a.name, b.name);
        }
        if precedes(a.name, b.name) && precedes(b.name, a.name) {
            crate::order::order_is_transitive(a.name, b.name, a.name);
            crate::order::order_is_irreflexive(a.name);
        }
    }
}

proof fn lemma_insert_ranked(list: Seq<RankView>, item: RankView)
    requires
        in_rank_order(list),
    ensures
        in_rank_order(list.insert(rank_position(list, item, 0), item)),
{
    let at = rank_position(list, item, 0);
    lemma_rank_position(list, item, 0);
    let out = list.insert(at, item);
    assert forall|i: int, j: int| #![trigger out[i], out[j]]
        0 <= i < j < out.len() implies !ranks_before(out[j], out[i]) by {
        let a = if i < at {
            i
        } else {
            i - 1
        };
        let b = if j < at {
            j
        } else {
            j - 1
        };
        if j == at {
            assert(out[i] == list[i]);
        } else if i == at {
            assert(out[j] == list[b]);
            lemma_ranks_total(item, list[at]);
            lemma_ranks_total(item, list[b]);
            if ranks_before(list[b], item) {
                lemma_ranks_transitive(list[b], item, list[at]);
                if b > at {
                    assert(!ranks_before(list[b], list[at]));
                } else {
                    lemma_ranks_total(list[b], item);
                }
            }
        } else {
            assert(out[i] == list[a]);
            assert(out[j] == list[b]);
            assert(!ranks_before(list[b], list[a]));
        }
    }
}

/// Law: candidates are offered closest first, equally close ones by name, and
/// each is a member within distance 2 of the word.
pub proof fn suggestions_are_ranked(members: Seq<ValueMember>, word: Seq<char>)
    ensures
        in_rank_order(ranked(members, word)),
        forall|i: int| #![trigger ranked(members, word)[i]]
            0 <= i < ranked(members, word).len() ==> {
                let item = ranked(members, word)[i];
                &&& item.distance <= 2
                &&& item.distance == levenshtein(upper(word), upper(item.name))
                &&& exists|k: int|
                    0 <= k < members.len() && (#[trigger] members[k]).name@ == item.name
            },
    decreases members.len(),
{
    if members.len() > 0 {
        let short = members.drop_last();
        let rest = ranked(short, word);
        suggestions_are_ranked(short, word);
        let name = members.last().name@;
        let item = RankView { distance: levenshtein(upper(word), upper(name)), name };
        let out = ranked(members, word);
        let at = rank_position(rest, item, 0);
        lemma_rank_position(rest, item, 0);
        lemma_insert_ranked(rest, item);
        assert forall|i: int| #![trigger out[i]] 0 <= i < out.len() implies {
            &&& out[i].distance <= 2
            &&& out[i].distance == levenshtein(upper(word), upper(out[i].name))
            &&& exists|k: int| 0 <= k < members.len() && (#[trigger] members[k]).name@ == out[i].name
        } by {
            if item.distance <= 2 && i == at {
                assert(members[members.len() - 1].name@ == name);
            } else {
                let j = if item.distance <= 2 && i > at {
                    i - 1
                } else {
                    i
                };
                assert(out[i] == rest[j]);
                let k = choose|k: int|
                    0 <= k < short.len() && (#[trigger] short[k]).name@ == rest[j].name;
                assert(members[k].name@ == out[i].name);
            }
        }
    }
}

/// Law: every member within distance 2 of the word is a candidate.
pub proof fn close_members_are_candidates(members: Seq<ValueMember>, word: Seq<char>, k: int)
    requires
        0 <= k < members.len(),
        levenshtein(upper(word), upper(members[k].name@)) <= 2,
    ensures
        exists|i: int|
            0 <= i < ranked(members, word).len() && (#[trigger] ranked(members, word)[i]).name
                == members[k].name@,
    decreases members.len(),
{
    let short = members.drop_last();
    let rest = ranked(short, word);
    let name = members.last().name@;
    let item = RankView { distance: levenshtein(upper(word), upper(name)), name };
    let out = ranked(members, word);
    let at = rank_position(rest, item, 0);
    lemma_rank_position(rest, item, 0);
    if k == members.len() - 1 {
        assert(out[at] == item);
    } else {
        assert(short[k] == members[k]);
        close_members_are_candidates(short, word, k);
        let i = choose|i: int| 0 <= i < rest.len() && (#[trigger] rest[i]).name == members[k].name@;
        if item.distance <= 2 {
            if i < at {
                assert(out[i] == rest[i]);
            } else {
                assert(out[i + 1] == rest[i]);
            }
        } else {
            assert(out[i] == rest[i]);
        }
    }
}

} // verus!
