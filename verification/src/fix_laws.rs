//! Laws of the fixes that are offered: what a fix that is offered for a finding does to
//! the text, and which replacements are offered for a wrong word.

use vstd::prelude::*;
use vstd::string::*;

use crate::action_laws::{
    created_stub_defines_the_name, defines, inserted_end_closes_a_scope,
    inserted_pragma_suppresses, pragma_line,
};
use crate::actions::{
    code_list, dead_set_step, definers, diagnostic_step, diagnostic_steps, first_pragma, fixes_of,
    has_space, index_at, line_begin, missing_end, missing_ends, stub_fix, suppression, FixState,
    FixView,
};
use crate::analyzer::Span;
use crate::check_laws::{counts_set, last_value_set_counts};
use crate::checks::DiagnosticView;
use crate::distance::levenshtein;
use crate::index::{definitions_of, IndexView};
use crate::kind::SyntaxKind;
use crate::lexer::bare_word;
use crate::lines::{
    head_word_is_the_key, key_at, leaf_at, lemma_line_type, line_has_type, value_places,
    values_come_in_order,
};
use crate::model::{block_scope, scope_of, ScopeView};
use crate::nav::ReferenceView;
use crate::outline::leaf_span;
use crate::parser::{
    child_views, parse_text, ChildView, OpenerOracle, Parse, SyntaxError, SyntaxErrorKind,
};
use crate::pragma::{known_code, suppressions_of};
use crate::schema::{
    block_named, value_set_named, BlockType, RefKind, Schema, ValueMember, ValueType,
};
use crate::scopes::unterminated;
use crate::semantic::field_type;
use crate::suggest::{
    best_count, close_members_are_candidates, element_suggestions, field_suggestions,
    flags_suggestions, listed_suggestions, meets, ranked, replacements, shorter,
    suggestions_are_ranked, suggestions_in, suggestions_of, token_suggestions, RankView,
};
use crate::text::{blen, byte_at, lower, same_ignoring_case, unsigned_flag, upper};
use crate::tree::{ElementView, LeafView, NodeView};

verus! {

/// Fixes are added to others, which stay.
pub open spec fn adds(before: Seq<FixView>, after: Seq<FixView>, n: int) -> bool {
    after.len() == before.len() + n && after.take(before.len() as int) == before
}

/// A fix inserts its text behind all of a text.
pub open spec fn is_appended(fix: FixView, s: Seq<char>) -> bool {
    fix.span.start == blen(s) as u32 && fix.span.end == blen(s) as u32
}

proof fn lemma_index_at(s: Seq<char>, byte: int, i: int, k: int)
    requires
        0 <= i <= k <= s.len(),
        byte_at(s, k) == byte,
    ensures
        index_at(s, byte, i) is Some,
        0 <= index_at(s, byte, i)->0 <= s.len(),
    decreases k - i,
{
    if byte_at(s, i) != byte {
        lemma_index_at(s, byte, i + 1, k);
    }
}

proof fn lemma_line_begin(s: Seq<char>, i: int)
    requires
        0 <= i <= s.len(),
    ensures
        0 <= line_begin(s, i) <= i,
    decreases i,
{
    if !(i <= 0 || i > s.len() || s[i - 1] == '\n') {
        lemma_line_begin(s, i - 1);
    }
}

/// Law: for a scope without an end that lies in the range, one fix is offered. It
/// appends to the text, and then one scope less is without an end.
pub proof fn offered_ends_close_scopes<O: OpenerOracle>(
    oracle: O,
    s: Seq<char>,
    error: SyntaxError,
    k: int,
    range: Span,
    acc: Seq<FixView>,
)
    requires
        error.kind == SyntaxErrorKind::UnterminatedBlock,
        0 <= k <= s.len(),
        byte_at(s, k) == error.start,
        error.start <= u32::MAX,
        error.end <= u32::MAX,
        range.start <= error.end,
        error.start <= range.end,
        unterminated(parse_text(oracle, s).errors) > 0,
    ensures
        ({
            let after = missing_end(error, s, range, acc);
            &&& adds(acc, after, 1)
            &&& is_appended(after.last(), s)
            &&& unterminated(parse_text(oracle, s + after.last().new_text).errors) + 1
                == unterminated(parse_text(oracle, s).errors)
        }),
{
    lemma_index_at(s, error.start as int, 0, k);
    let i = index_at(s, error.start as int, 0)->0;
    lemma_line_begin(s, i);
    inserted_end_closes_a_scope(oracle, s, line_begin(s, i));
    let after = missing_end(error, s, range, acc);
    assert(after.take(acc.len() as int) =~= acc);
}

/// Law: no fix of this kind is offered for another error, nor outside of the range.
pub proof fn ends_are_offered_for_open_scopes(
    s: Seq<char>,
    error: SyntaxError,
    range: Span,
    acc: Seq<FixView>,
)
    requires
        error.start <= u32::MAX,
        error.end <= u32::MAX,
        error.kind != SyntaxErrorKind::UnterminatedBlock || error.end < range.start || range.end
            < error.start,
    ensures
        missing_end(error, s, range, acc) == acc,
{
}

// ---------------------------------------------------------------------------
// Stubs
// ---------------------------------------------------------------------------
/// Block type `b` alone defines a kind.
pub open spec fn defines_alone(blocks: Seq<BlockType>, b: int, kind: RefKind) -> bool {
    &&& 0 <= b < blocks.len()
    &&& forall|c: int|
        0 <= c < blocks.len() ==> ((#[trigger] blocks[c]).defines == Some(kind) <==> c == b)
}

proof fn lemma_definers_none(blocks: Seq<BlockType>, kind: RefKind)
    ensures
        definers(blocks, kind).len() == 0 <==> forall|c: int|
            0 <= c < blocks.len() ==> (#[trigger] blocks[c]).defines != Some(kind),
    decreases blocks.len(),
{
    if blocks.len() > 0 {
        let rest = blocks.drop_last();
        let n = blocks.len() - 1;
        lemma_definers_none(rest, kind);
        if definers(blocks, kind).len() == 0 {
            assert forall|c: int| 0 <= c < blocks.len() implies (#[trigger] blocks[c]).defines
                != Some(kind) by {
                if c < n {
                    assert(rest[c].defines != Some(kind));
                }
            }
        } else if definers(rest, kind).len() > 0 {
            let c = choose|c: int| 0 <= c < rest.len() && (#[trigger] rest[c]).defines == Some(kind);
            assert(blocks[c].defines == Some(kind));
        } else {
            assert(blocks[n].defines == Some(kind));
        }
    }
}

proof fn lemma_definers(blocks: Seq<BlockType>, b: int, kind: RefKind)
    requires
        defines_alone(blocks, b, kind),
    ensures
        definers(blocks, kind) == seq![blocks[b].name@],
    decreases blocks.len(),
{
    let rest = blocks.drop_last();
    let n = blocks.len() - 1;
    if b < n {
        assert forall|c: int| 0 <= c < rest.len() implies ((#[trigger] rest[c]).defines == Some(
            kind,
        ) <==> c == b) by {
            assert(blocks[c].defines == Some(kind) <==> c == b);
        }
        lemma_definers(rest, b, kind);
        assert(blocks[n].defines != Some(kind));
    } else {
        assert forall|c: int| 0 <= c < rest.len() implies (#[trigger] rest[c]).defines != Some(
            kind,
        ) by {
            assert(blocks[c].defines != Some(kind));
        }
        lemma_definers_none(rest, kind);
        assert(blocks[n].defines == Some(kind));
        assert(definers(blocks, kind) =~= seq![blocks[b].name@]);
    }
}

/// Law: for a name that nothing defines, of a kind that one type of block defines, one
/// fix is offered. It appends to the text, and then the name is defined, if no scope
/// of the text is open.
pub proof fn offered_stubs_define_the_name<O: OpenerOracle>(
    oracle: O,
    schema: Schema,
    s: Seq<char>,
    b: int,
    reference: ReferenceView,
    index: Option<IndexView>,
    acc: Seq<FixView>,
)
    requires
        defines_alone(schema.blocks@, b, reference.kind),
        reference.kind == RefKind::Object ==> schema.blocks@[b].name@ == "Object"@,
        !has_space(reference.name),
        index matches Some(index) ==> !index.defines(reference.kind, reference.name),
        bare_word(schema.blocks@[b].name@),
        bare_word(reference.name),
        lower(schema.blocks@[b].name@) != lower("End"@),
        oracle.opens_file(schema.blocks@[b].name@),
        block_named(schema.blocks@, schema.blocks@[b].name@) == Some(schema.blocks@[b]),
        unterminated(parse_text(oracle, s).errors) == 0,
    ensures
        ({
            let after = stub_fix(schema, Some(reference), index, s, acc);
            &&& adds(acc, after, 1)
            &&& is_appended(after.last(), s)
            &&& defines(
                definitions_of(
                    schema,
                    parse_text(oracle, s + after.last().new_text).children,
                ),
                reference.kind,
                reference.name,
            )
        }),
{
    lemma_definers(schema.blocks@, b, reference.kind);
    assert(schema.blocks@[b].defines == Some(reference.kind));
    created_stub_defines_the_name(
        oracle,
        schema,
        s,
        reference.kind,
        schema.blocks@[b].name@,
        reference.name,
    );
    let after = stub_fix(schema, Some(reference), index, s, acc);
    assert(after.take(acc.len() as int) =~= acc);
}

/// Law: no stub is offered where nothing is referred to, for a name that is defined,
/// for one with blanks, nor for a kind that no type of block defines.
pub proof fn stubs_are_offered_for_missing_names(
    schema: Schema,
    s: Seq<char>,
    reference: Option<ReferenceView>,
    index: Option<IndexView>,
    acc: Seq<FixView>,
)
    requires
        reference matches Some(found) ==> {
            ||| index is Some && index->0.defines(found.kind, found.name)
            ||| has_space(found.name)
            ||| forall|c: int|
                0 <= c < schema.blocks@.len() ==> (#[trigger] schema.blocks@[c]).defines != Some(
                    found.kind,
                )
        },
    ensures
        stub_fix(schema, reference, index, s, acc) == acc,
{
    if let Some(found) = reference {
        lemma_definers_none(schema.blocks@, found.kind);
    }
}

// ---------------------------------------------------------------------------
// Pragmas
// ---------------------------------------------------------------------------
proof fn lemma_no_pragma(children: Seq<ChildView>, i: int)
    requires
        0 <= i <= children.len(),
        forall|c: int| i <= c < children.len() ==> code_list(#[trigger] children[c]) is None,
    ensures
        first_pragma(children, i) == children.len(),
    decreases children.len() - i,
{
    if i < children.len() {
        assert(code_list(children[i]) is None);
        lemma_no_pragma(children, i + 1);
    }
}

/// Law: in a file without pragmas, one fix is offered to leave out a code: it inserts
/// at the top, and then the code is left out.
pub proof fn offered_pragmas_suppress<O: OpenerOracle>(
    oracle: O,
    s: Seq<char>,
    code: Seq<char>,
    acc: Seq<FixView>,
)
    requires
        known_code(code),
        forall|c: int|
            0 <= c < parse_text(oracle, s).children.len() ==> code_list(
                #[trigger] parse_text(oracle, s).children[c],
            ) is None,
        s.len() > 0 ==> s[0] != '\u{feff}',
    ensures
        ({
            let after = suppression(parse_text(oracle, s).children, s, code, acc);
            &&& adds(acc, after, 1)
            &&& after.last().span == (Span { start: 0, end: 0 })
            &&& suppressions_of(
                parse_text(oracle, after.last().new_text + s).children,
            ).codes.contains(code)
        }),
{
    let children = parse_text(oracle, s).children;
    lemma_no_pragma(children, 0);
    let after = suppression(children, s, code, acc);
    assert(after.take(acc.len() as int) =~= acc);
    assert(after.last().new_text =~= pragma_line(code));
    inserted_pragma_suppresses(oracle, code, s);
}

// ---------------------------------------------------------------------------
// Replacements
// ---------------------------------------------------------------------------
spec fn replacement(name: Seq<char>, span: Span, prefix: Seq<char>) -> FixView {
    FixView { title: "Replace with `"@ + name + "`"@, span, new_text: prefix + name }
}

proof fn lemma_replacements(
    list: Seq<RankView>,
    n: int,
    span: Span,
    prefix: Seq<char>,
    acc: Seq<FixView>,
)
    requires
        0 <= n <= list.len(),
    ensures
        ({
            let after = replacements(list, n, span, prefix, acc);
            &&& adds(acc, after, n)
            &&& forall|i: int|
                #![trigger after[acc.len() + i]]
                0 <= i < n ==> after[acc.len() + i] == replacement(list[i].name, span, prefix)
        }),
    decreases n,
{
    let after = replacements(list, n, span, prefix, acc);
    if n == 0 {
        assert(acc.take(acc.len() as int) =~= acc);
    } else {
        let before = replacements(list, n - 1, span, prefix, acc);
        lemma_replacements(list, n - 1, span, prefix, acc);
        assert(after.take(acc.len() as int) =~= before.take(acc.len() as int));
        assert forall|i: int|
            #![trigger after[acc.len() + i]]
            0 <= i < n implies after[acc.len() + i] == replacement(list[i].name, span, prefix) by {
            if i < n - 1 {
                assert(after[acc.len() + i] == before[acc.len() + i]);
            }
        }
    }
}

/// A member is so close to a word that it may be meant.
pub open spec fn is_close(member: ValueMember, word: Seq<char>) -> bool {
    levenshtein(upper(word), upper(member.name@)) <= 2
}

/// What is offered in place of a word, behind what stays of its token: members of a
/// set that are close to it, at most three, and some if there are any.
pub open spec fn offers_members(
    before: Seq<FixView>,
    after: Seq<FixView>,
    members: Seq<ValueMember>,
    word: Seq<char>,
    prefix: Seq<char>,
    start: int,
    end: int,
) -> bool {
    let n = after.len() - before.len();
    &&& 0 <= n <= 3
    &&& adds(before, after, n)
    &&& forall|i: int|
        #![trigger after[before.len() + i]]
        0 <= i < n ==> after[before.len() + i].span.start == start && after[before.len()
            + i].span.end == end && exists|m: int|
            0 <= m < members.len() && is_close(#[trigger] members[m], word) && after[before.len()
                + i].new_text == prefix + members[m].name@
    &&& (exists|m: int| 0 <= m < members.len() && is_close(#[trigger] members[m], word)) ==> n > 0
}

proof fn lemma_offers(
    members: Seq<ValueMember>,
    word: Seq<char>,
    prefix: Seq<char>,
    span: Span,
    acc: Seq<FixView>,
)
    ensures
        ({
            let list = ranked(members, word);
            offers_members(
                acc,
                replacements(list, best_count(list), span, prefix, acc),
                members,
                word,
                prefix,
                span.start as int,
                span.end as int,
            )
        }),
{
    let list = ranked(members, word);
    let n = best_count(list);
    let after = replacements(list, n, span, prefix, acc);
    lemma_replacements(list, n, span, prefix, acc);
    suggestions_are_ranked(members, word);
    assert forall|i: int|
        #![trigger after[acc.len() + i]]
        0 <= i < n implies after[acc.len() + i].span.start == span.start && after[acc.len()
        + i].span.end == span.end && exists|m: int|
        0 <= m < members.len() && is_close(#[trigger] members[m], word) && after[acc.len()
            + i].new_text == prefix + members[m].name@ by {
        let item = list[i];
        let m = choose|m: int| 0 <= m < members.len() && (#[trigger] members[m]).name@ == item.name;
        assert(is_close(members[m], word));
    }
    if exists|m: int| 0 <= m < members.len() && is_close(#[trigger] members[m], word) {
        let m = choose|m: int| 0 <= m < members.len() && is_close(#[trigger] members[m], word);
        close_members_are_candidates(members, word, m);
    }
}

/// Law: for a word that is no member of its set and lies in the range, close members
/// are offered in its place. Nothing is offered for a member, in any case, nor outside
/// of the range.
pub proof fn wrong_members_are_replaced(
    schema: Schema,
    token: LeafView,
    offset: int,
    value_set: String,
    s: int,
    range: Span,
    acc: Seq<FixView>,
)
    requires
        counts_set(schema.value_sets@, s),
        schema.value_sets@[s].id@ == value_set@,
        token.text.len() > 0,
        0 <= offset,
        0 <= token.start <= token.end,
        offset + token.end <= u32::MAX,
    ensures
        ({
            let members = schema.value_sets@[s].members@;
            let after = token_suggestions(
                schema,
                token,
                offset,
                value_set@,
                false,
                range,
                acc,
            );
            let is_member = exists|m: int|
                0 <= m < members.len() && lower((#[trigger] members[m]).name@) == lower(token.text);
            if is_member || offset + token.end < range.start || range.end < offset + token.start {
                after == acc
            } else {
                offers_members(
                    acc,
                    after,
                    members,
                    token.text,
                    Seq::empty(),
                    offset + token.start,
                    offset + token.end,
                )
            }
        }),
{
    last_value_set_counts(schema.value_sets@, s);
    let members = schema.value_sets@[s].members@;
    assert(token.text.take(0) =~= Seq::<char>::empty());
    let is_member = exists|m: int|
        0 <= m < members.len() && lower((#[trigger] members[m]).name@) == lower(token.text);
    if is_member {
        let m = choose|m: int|
            0 <= m < members.len() && lower((#[trigger] members[m]).name@) == lower(token.text);
        assert(same_ignoring_case(members[m].name@, token.text));
    }
    lemma_offers(
        members,
        token.text,
        Seq::empty(),
        Span { start: (offset + token.start) as u32, end: (offset + token.end) as u32 },
        acc,
    );
}

/// Law: for a flag, its signs stay in front of what is offered in its place.
pub proof fn wrong_flags_keep_their_signs(
    schema: Schema,
    token: LeafView,
    sign: Seq<char>,
    word: Seq<char>,
    offset: int,
    value_set: String,
    s: int,
    range: Span,
    acc: Seq<FixView>,
)
    requires
        counts_set(schema.value_sets@, s),
        schema.value_sets@[s].id@ == value_set@,
        token.text == sign + word,
        forall|i: int| 0 <= i < sign.len() ==> (#[trigger] sign[i]) == '+' || sign[i] == '-',
        word.len() > 0,
        word[0] != '+' && word[0] != '-',
        0 <= offset,
        0 <= token.start <= token.end,
        offset + token.end <= u32::MAX,
    ensures
        ({
            let members = schema.value_sets@[s].members@;
            let after = token_suggestions(
                schema,
                token,
                offset,
                value_set@,
                true,
                range,
                acc,
            );
            let is_member = exists|m: int|
                0 <= m < members.len() && lower((#[trigger] members[m]).name@) == lower(word);
            let is_special = lower(word) == lower("NONE"@) || lower(word) == lower("ALL"@);
            if is_member || is_special || offset + token.end < range.start || range.end < offset
                + token.start {
                after == acc
            } else {
                offers_members(
                    acc,
                    after,
                    members,
                    word,
                    sign,
                    offset + token.start,
                    offset + token.end,
                )
            }
        }),
{
    last_value_set_counts(schema.value_sets@, s);
    let members = schema.value_sets@[s].members@;
    lemma_signs(token.text, sign, word);
    assert(token.text.take(sign.len() as int) =~= sign);
    let is_member = exists|m: int|
        0 <= m < members.len() && lower((#[trigger] members[m]).name@) == lower(word);
    if is_member {
        let m = choose|m: int|
            0 <= m < members.len() && lower((#[trigger] members[m]).name@) == lower(word);
        assert(same_ignoring_case(members[m].name@, word));
    }
    lemma_offers(
        members,
        word,
        sign,
        Span { start: (offset + token.start) as u32, end: (offset + token.end) as u32 },
        acc,
    );
}

proof fn lemma_signs(text: Seq<char>, sign: Seq<char>, word: Seq<char>)
    requires
        text == sign + word,
        forall|i: int| 0 <= i < sign.len() ==> (#[trigger] sign[i]) == '+' || sign[i] == '-',
        word.len() > 0,
        word[0] != '+' && word[0] != '-',
    ensures
        unsigned_flag(text, true) == word,
    decreases sign.len(),
{
    if sign.len() == 0 {
        assert(text =~= word);
    } else {
        let rest = sign.drop_first();
        assert(text[0] == sign[0]);
        assert(text.drop_first() =~= rest + word);
        assert forall|i: int| 0 <= i < rest.len() implies (#[trigger] rest[i]) == '+' || rest[i]
            == '-' by {
            assert(sign[i + 1] == '+' || sign[i + 1] == '-');
        }
        lemma_signs(text.drop_first(), rest, word);
    }
}

// ---------------------------------------------------------------------------
// Sets
// ---------------------------------------------------------------------------
/// Law: a set that can never be chosen can be removed: the fix replaces all of it by
/// nothing. The other fixes stay, and one more may follow.
pub proof fn dead_sets_can_be_removed(
    nodes: Seq<NodeView>,
    set: NodeView,
    k: int,
    offset: int,
    s: Seq<char>,
    st: FixState,
)
    requires
        nodes.len() >= 2,
        nodes[nodes.len() - 2] == set,
        key_at(set, k),
        leaf_at(set, k).text == "WeaponSet"@ || leaf_at(set, k).text == "ArmorSet"@,
        0 <= offset,
        0 <= set.start <= set.end,
        offset + set.end <= u32::MAX,
    ensures
        ({
            let after = dead_set_step(nodes, offset, s, st);
            let n = st.out.len() as int;
            &&& n < after.out.len() <= n + 2
            &&& after.out.take(n) == st.out
            &&& after.out[n].span.start == offset + set.start
            &&& after.out[n].span.end == offset + set.end
            &&& after.out[n].new_text == ""@
            &&& after.codes == st.codes
        }),
{
    head_word_is_the_key(set, k);
    let after = dead_set_step(nodes, offset, s, st);
    assert(after.out.take(st.out.len() as int) =~= st.out);
}

// ---------------------------------------------------------------------------
// Documents
// ---------------------------------------------------------------------------
/// Fixes are added to others, which stay.
pub open spec fn keeps(before: Seq<FixView>, after: Seq<FixView>) -> bool {
    before.len() <= after.len() && after.take(before.len() as int) == before
}

proof fn lemma_keeps_on(a: Seq<FixView>, b: Seq<FixView>, c: Seq<FixView>)
    requires
        keeps(a, b),
        keeps(b, c),
    ensures
        keeps(a, c),
{
    assert forall|i: int| 0 <= i < a.len() implies c[i] == #[trigger] a[i] by {
        assert(b.take(a.len() as int)[i] == b[i]);
        assert(c.take(b.len() as int)[i] == c[i]);
    }
    assert(c.take(a.len() as int) =~= a);
}

proof fn lemma_kept(before: Seq<FixView>, after: Seq<FixView>, fix: FixView)
    requires
        keeps(before, after),
        before.contains(fix),
    ensures
        after.contains(fix),
{
    let i = choose|i: int| 0 <= i < before.len() && before[i] == fix;
    assert(after.take(before.len() as int)[i] == after[i]);
}

proof fn lemma_token_keeps(
    schema: Schema,
    token: LeafView,
    offset: int,
    set: Seq<char>,
    flags: bool,
    range: Span,
    acc: Seq<FixView>,
)
    ensures
        keeps(acc, token_suggestions(schema, token, offset, set, flags, range, acc)),
{
    assert(acc.take(acc.len() as int) =~= acc);
    let raw = if flags {
        unsigned_flag(token.text, true)
    } else {
        token.text
    };
    if let Some(known) = value_set_named(schema.value_sets@, set) {
        let list = ranked(known.members@, raw);
        let prefix = token.text.take(token.text.len() - raw.len());
        lemma_replacements(list, best_count(list), leaf_span(token, offset), prefix, acc);
    }
}

proof fn lemma_flags_keep(
    schema: Schema,
    tokens: Seq<LeafView>,
    n: int,
    offset: int,
    set: Seq<char>,
    range: Span,
    acc: Seq<FixView>,
)
    ensures
        keeps(acc, flags_suggestions(schema, tokens, n, offset, set, range, acc)),
    decreases n,
{
    if n <= 0 {
        assert(acc.take(acc.len() as int) =~= acc);
    } else {
        let before = flags_suggestions(schema, tokens, n - 1, offset, set, range, acc);
        lemma_flags_keep(schema, tokens, n - 1, offset, set, range, acc);
        lemma_token_keeps(schema, tokens[n - 1], offset, set, true, range, before);
        lemma_keeps_on(
            acc,
            before,
            flags_suggestions(schema, tokens, n, offset, set, range, acc),
        );
    }
}

proof fn lemma_listed_keeps(
    schema: Schema,
    specs: Seq<ValueType>,
    tokens: Seq<LeafView>,
    n: int,
    offset: int,
    range: Span,
    acc: Seq<FixView>,
)
    ensures
        keeps(acc, listed_suggestions(schema, specs, tokens, n, offset, range, acc)),
    decreases n,
{
    if n <= 0 {
        assert(acc.take(acc.len() as int) =~= acc);
    } else {
        let before = listed_suggestions(schema, specs, tokens, n - 1, offset, range, acc);
        lemma_listed_keeps(schema, specs, tokens, n - 1, offset, range, acc);
        match specs[n - 1] {
            ValueType::Enum { value_set } => {
                lemma_token_keeps(
                    schema,
                    tokens[n - 1],
                    offset,
                    value_set@,
                    false,
                    range,
                    before,
                );
            },
            ValueType::BitFlags { value_set } => {
                lemma_token_keeps(schema, tokens[n - 1], offset, value_set@, true, range, before);
            },
            _ => {
                assert(before.take(before.len() as int) =~= before);
            },
        }
        lemma_keeps_on(
            acc,
            before,
            listed_suggestions(schema, specs, tokens, n, offset, range, acc),
        );
    }
}

proof fn lemma_field_keeps(
    schema: Schema,
    scope: ScopeView,
    node: NodeView,
    offset: int,
    range: Span,
    acc: Seq<FixView>,
)
    ensures
        keeps(acc, field_suggestions(schema, scope, node, offset, range, acc)),
{
    assert(acc.take(acc.len() as int) =~= acc);
    let tokens = node.values();
    match field_type(scope, node) {
        Some(ValueType::Enum { value_set }) => {
            if tokens.len() > 0 {
                lemma_token_keeps(schema, tokens[0], offset, value_set@, false, range, acc);
            }
        },
        Some(ValueType::BitFlags { value_set }) => {
            lemma_flags_keep(
                schema,
                tokens,
                tokens.len() as int,
                offset,
                value_set@,
                range,
                acc,
            );
        },
        Some(ValueType::TokenList { tokens: specs }) => {
            lemma_listed_keeps(
                schema,
                specs@,
                tokens,
                shorter(specs@.len(), tokens.len()),
                offset,
                range,
                acc,
            );
        },
        _ => {},
    }
}

proof fn lemma_element_keeps(
    schema: Schema,
    e: ElementView,
    offset: int,
    scope: ScopeView,
    range: Span,
    acc: Seq<FixView>,
)
    ensures
        keeps(acc, element_suggestions(schema, e, offset, scope, range, acc)),
    decreases e,
{
    assert(acc.take(acc.len() as int) =~= acc);
    if let ElementView::Node(node) = e {
        if node.kind == SyntaxKind::FIELD {
            lemma_field_keeps(schema, scope, node, offset, range, acc);
        } else if node.kind == SyntaxKind::BLOCK || node.kind == SyntaxKind::MODULE {
            lemma_elements_keep(
                schema,
                node.children,
                offset,
                scope_of(schema, scope, node),
                range,
                acc,
            );
        }
    }
}

proof fn lemma_elements_keep(
    schema: Schema,
    elements: Seq<ElementView>,
    offset: int,
    scope: ScopeView,
    range: Span,
    acc: Seq<FixView>,
)
    ensures
        keeps(acc, suggestions_in(schema, elements, offset, scope, range, acc)),
    decreases elements,
{
    if elements.len() == 0 {
        assert(acc.take(acc.len() as int) =~= acc);
    } else {
        let before = suggestions_in(schema, elements.drop_last(), offset, scope, range, acc);
        lemma_elements_keep(schema, elements.drop_last(), offset, scope, range, acc);
        lemma_element_keeps(schema, elements.last(), offset, scope, range, before);
        lemma_keeps_on(
            acc,
            before,
            suggestions_in(schema, elements, offset, scope, range, acc),
        );
    }
}

/// What is offered at one element of a list is offered in the list.
proof fn lemma_elements_reach(
    schema: Schema,
    elements: Seq<ElementView>,
    offset: int,
    scope: ScopeView,
    range: Span,
    acc: Seq<FixView>,
    p: int,
) -> (at: Seq<FixView>)
    requires
        0 <= p < elements.len(),
    ensures
        keeps(
            element_suggestions(schema, elements[p], offset, scope, range, at),
            suggestions_in(schema, elements, offset, scope, range, acc),
        ),
    decreases elements.len(),
{
    let rest = elements.drop_last();
    let before = suggestions_in(schema, rest, offset, scope, range, acc);
    let all = suggestions_in(schema, elements, offset, scope, range, acc);
    if p == elements.len() - 1 {
        assert(all.take(all.len() as int) =~= all);
        before
    } else {
        assert(rest[p] == elements[p]);
        let at = lemma_elements_reach(schema, rest, offset, scope, range, acc, p);
        lemma_element_keeps(schema, elements.last(), offset, scope, range, before);
        lemma_keeps_on(
            element_suggestions(schema, elements[p], offset, scope, range, at),
            before,
            all,
        );
        at
    }
}

proof fn lemma_children_reach(
    schema: Schema,
    children: Seq<ChildView>,
    range: Span,
    acc: Seq<FixView>,
    c: int,
) -> (at: Seq<FixView>)
    requires
        0 <= c < children.len(),
    ensures
        keeps(
            element_suggestions(
                schema,
                children[c].element,
                children[c].offset,
                ScopeView::Unknown,
                range,
                at,
            ),
            suggestions_of(schema, children, range, acc),
        ),
    decreases children.len(),
{
    let rest = children.drop_last();
    let last = children.last();
    let before = suggestions_of(schema, rest, range, acc);
    let all = suggestions_of(schema, children, range, acc);
    if c == children.len() - 1 {
        assert(all.take(all.len() as int) =~= all);
        before
    } else {
        assert(rest[c] == children[c]);
        let at = lemma_children_reach(schema, rest, range, acc, c);
        lemma_element_keeps(
            schema,
            last.element,
            last.offset,
            ScopeView::Unknown,
            range,
            before,
        );
        lemma_keeps_on(
            element_suggestions(
                schema,
                children[c].element,
                children[c].offset,
                ScopeView::Unknown,
                range,
                at,
            ),
            before,
            all,
        );
        at
    }
}

/// A node meets a range of a document.
pub open spec fn node_meets(node: NodeView, offset: int, range: Span) -> bool {
    &&& 0 <= offset
    &&& 0 <= node.start <= node.end
    &&& offset + node.end <= u32::MAX
    &&& range.start <= offset + node.end
    &&& offset + node.start <= range.end
}

/// What is offered for the values of a line is offered for the document.
proof fn lemma_line_offers(
    schema: Schema,
    children: Seq<ChildView>,
    c: int,
    block: NodeView,
    inner: Option<NodeView>,
    line: NodeView,
    ty: ValueType,
    range: Span,
    acc: Seq<FixView>,
    fix: FixView,
)
    requires
        line_has_type(schema, children, c, block, inner, line, ty),
        node_meets(block, children[c].offset, range),
        node_meets(line, children[c].offset, range),
        inner matches Some(module) ==> node_meets(module, children[c].offset, range),
        forall|scope: ScopeView, at: Seq<FixView>|
            field_type(scope, line) == Some(ty) ==> (#[trigger] field_suggestions(
                schema,
                scope,
                line,
                children[c].offset,
                range,
                at,
            )).contains(fix),
    ensures
        suggestions_of(schema, children, range, acc).contains(fix),
{
    let offset = children[c].offset;
    lemma_line_type(schema, children, c, block, inner, line, ty);
    let at = lemma_children_reach(schema, children, range, acc, c);
    let scope = block_scope(schema, block);
    let all = suggestions_of(schema, children, range, acc);
    let own = suggestions_in(schema, block.children, offset, scope, range, at);
    assert(own == element_suggestions(
        schema,
        children[c].element,
        offset,
        ScopeView::Unknown,
        range,
        at,
    ));
    match inner {
        None => {
            let p = choose|p: int|
                0 <= p < block.children.len() && #[trigger] block.children[p] == ElementView::Node(
                    line,
                );
            let deep = lemma_elements_reach(schema, block.children, offset, scope, range, at, p);
            assert(field_suggestions(schema, scope, line, offset, range, deep).contains(fix));
            lemma_kept(
                element_suggestions(schema, block.children[p], offset, scope, range, deep),
                own,
                fix,
            );
        },
        Some(module) => {
            let p = choose|p: int|
                0 <= p < block.children.len() && #[trigger] block.children[p] == ElementView::Node(
                    module,
                );
            let q = choose|q: int|
                0 <= q < module.children.len() && #[trigger] module.children[q]
                    == ElementView::Node(line);
            let within = scope_of(schema, scope, module);
            let mid = lemma_elements_reach(schema, block.children, offset, scope, range, at, p);
            let deep = lemma_elements_reach(
                schema,
                module.children,
                offset,
                within,
                range,
                mid,
                q,
            );
            assert(field_suggestions(schema, within, line, offset, range, deep).contains(fix));
            lemma_kept(
                element_suggestions(schema, module.children[q], offset, within, range, deep),
                suggestions_in(schema, module.children, offset, within, range, mid),
                fix,
            );
            lemma_kept(
                element_suggestions(schema, block.children[p], offset, scope, range, mid),
                own,
                fix,
            );
        },
    }
    lemma_kept(own, all, fix);
}

/// A fix puts a close member of a set in place of a word of a token.
pub open spec fn puts_member(
    fix: FixView,
    members: Seq<ValueMember>,
    word: Seq<char>,
    prefix: Seq<char>,
    token: LeafView,
    offset: int,
) -> bool {
    &&& fix.span.start == offset + token.start
    &&& fix.span.end == offset + token.end
    &&& exists|m: int|
        0 <= m < members.len() && is_close(#[trigger] members[m], word) && fix.new_text == prefix
            + members[m].name@
}

/// A token lies within a document and meets a range of it.
pub open spec fn token_meets(token: LeafView, offset: int, range: Span) -> bool {
    &&& 0 <= offset
    &&& 0 <= token.start <= token.end
    &&& offset + token.end <= u32::MAX
    &&& range.start <= offset + token.end
    &&& offset + token.start <= range.end
}

/// The first of what is offered in place of a token.
proof fn lemma_first_offer(
    schema: Schema,
    token: LeafView,
    prefix: Seq<char>,
    word: Seq<char>,
    offset: int,
    value_set: String,
    s: int,
    flags: bool,
    range: Span,
    m: int,
) -> (fix: FixView)
    requires
        counts_set(schema.value_sets@, s),
        schema.value_sets@[s].id@ == value_set@,
        token_meets(token, offset, range),
        word.len() > 0,
        token.text == prefix + word,
        if flags {
            &&& unsigned_flag(token.text, true) == word
            &&& lower(word) != lower("NONE"@)
            &&& lower(word) != lower("ALL"@)
        } else {
            prefix.len() == 0
        },
        forall|i: int|
            0 <= i < schema.value_sets@[s].members@.len() ==> lower(
                (#[trigger] schema.value_sets@[s].members@[i]).name@,
            ) != lower(word),
        0 <= m < schema.value_sets@[s].members@.len(),
        is_close(schema.value_sets@[s].members@[m], word),
    ensures
        puts_member(fix, schema.value_sets@[s].members@, word, prefix, token, offset),
        forall|acc: Seq<FixView>|
            (#[trigger] token_suggestions(
                schema,
                token,
                offset,
                value_set@,
                flags,
                range,
                acc,
            )).contains(fix),
{
    last_value_set_counts(schema.value_sets@, s);
    let members = schema.value_sets@[s].members@;
    let list = ranked(members, word);
    let span = leaf_span(token, offset);
    close_members_are_candidates(members, word, m);
    suggestions_are_ranked(members, word);
    let n = best_count(list);
    let fix = replacement(list[0].name, span, prefix);
    let k = choose|k: int| 0 <= k < members.len() && (#[trigger] members[k]).name@ == list[0].name;
    assert(is_close(members[k], word));
    if !flags {
        assert(token.text =~= word);
    }
    assert(token.text.take(prefix.len() as int) =~= prefix);
    assert forall|acc: Seq<FixView>|
        (#[trigger] token_suggestions(
            schema,
            token,
            offset,
            value_set@,
            flags,
            range,
            acc,
        )).contains(fix) by {
        lemma_replacements(list, n, span, prefix, acc);
        let after = replacements(list, n, span, prefix, acc);
        assert(after[acc.len() + 0int] == fix);
    }
    fix
}

/// Law: where a line asks for a member of a set and its first value is none, and some
/// member is close to it, a close member is offered in its place.
pub proof fn close_members_are_offered(
    schema: Schema,
    children: Seq<ChildView>,
    c: int,
    block: NodeView,
    inner: Option<NodeView>,
    line: NodeView,
    value_set: String,
    s: int,
    places: Seq<int>,
    range: Span,
    acc: Seq<FixView>,
    m: int,
)
    requires
        line_has_type(schema, children, c, block, inner, line, ValueType::Enum { value_set }),
        counts_set(schema.value_sets@, s),
        schema.value_sets@[s].id@ == value_set@,
        value_places(line, places),
        places.len() > 0,
        leaf_at(line, places[0]).text.len() > 0,
        token_meets(leaf_at(line, places[0]), children[c].offset, range),
        node_meets(block, children[c].offset, range),
        node_meets(line, children[c].offset, range),
        inner matches Some(module) ==> node_meets(module, children[c].offset, range),
        forall|i: int|
            0 <= i < schema.value_sets@[s].members@.len() ==> lower(
                (#[trigger] schema.value_sets@[s].members@[i]).name@,
            ) != lower(leaf_at(line, places[0]).text),
        0 <= m < schema.value_sets@[s].members@.len(),
        is_close(schema.value_sets@[s].members@[m], leaf_at(line, places[0]).text),
    ensures
        exists|fix: FixView| #[trigger]
            suggestions_of(schema, children, range, acc).contains(fix) && puts_member(
                fix,
                schema.value_sets@[s].members@,
                leaf_at(line, places[0]).text,
                Seq::empty(),
                leaf_at(line, places[0]),
                children[c].offset,
            ),
{
    let ty = ValueType::Enum { value_set };
    let offset = children[c].offset;
    let token = leaf_at(line, places[0]);
    values_come_in_order(line, places);
    assert(token.text =~= Seq::<char>::empty() + token.text);
    let fix = lemma_first_offer(
        schema,
        token,
        Seq::empty(),
        token.text,
        offset,
        value_set,
        s,
        false,
        range,
        m,
    );
    assert forall|scope: ScopeView, at: Seq<FixView>|
        field_type(scope, line) == Some(ty) implies (#[trigger] field_suggestions(
        schema,
        scope,
        line,
        offset,
        range,
        at,
    )).contains(fix) by {
        assert(token_suggestions(
            schema,
            token,
            offset,
            value_set@,
            false,
            range,
            at,
        ).contains(fix));
    }
    lemma_line_offers(schema, children, c, block, inner, line, ty, range, acc, fix);
}

proof fn lemma_flags_reach(
    schema: Schema,
    tokens: Seq<LeafView>,
    n: int,
    offset: int,
    set: Seq<char>,
    range: Span,
    acc: Seq<FixView>,
    p: int,
    fix: FixView,
)
    requires
        0 <= p < n <= tokens.len(),
        forall|at: Seq<FixView>|
            (#[trigger] token_suggestions(
                schema,
                tokens[p],
                offset,
                set,
                true,
                range,
                at,
            )).contains(fix),
    ensures
        flags_suggestions(schema, tokens, n, offset, set, range, acc).contains(fix),
    decreases n,
{
    let before = flags_suggestions(schema, tokens, n - 1, offset, set, range, acc);
    if p < n - 1 {
        lemma_flags_reach(schema, tokens, n - 1, offset, set, range, acc, p, fix);
        lemma_token_keeps(schema, tokens[n - 1], offset, set, true, range, before);
        lemma_kept(before, flags_suggestions(schema, tokens, n, offset, set, range, acc), fix);
    }
}

/// Law: where a line asks for flags and one of its values is none, with its signs
/// left out, and some flag is close to it, a close flag is offered in its place, behind
/// the signs.
pub proof fn close_flags_are_offered(
    schema: Schema,
    children: Seq<ChildView>,
    c: int,
    block: NodeView,
    inner: Option<NodeView>,
    line: NodeView,
    value_set: String,
    s: int,
    places: Seq<int>,
    p: int,
    sign: Seq<char>,
    word: Seq<char>,
    range: Span,
    acc: Seq<FixView>,
    m: int,
)
    requires
        line_has_type(schema, children, c, block, inner, line, ValueType::BitFlags { value_set }),
        counts_set(schema.value_sets@, s),
        schema.value_sets@[s].id@ == value_set@,
        value_places(line, places),
        0 <= p < places.len(),
        leaf_at(line, places[p]).text == sign + word,
        forall|i: int| 0 <= i < sign.len() ==> (#[trigger] sign[i]) == '+' || sign[i] == '-',
        word.len() > 0,
        word[0] != '+' && word[0] != '-',
        lower(word) != lower("NONE"@),
        lower(word) != lower("ALL"@),
        token_meets(leaf_at(line, places[p]), children[c].offset, range),
        node_meets(block, children[c].offset, range),
        node_meets(line, children[c].offset, range),
        inner matches Some(module) ==> node_meets(module, children[c].offset, range),
        forall|i: int|
            0 <= i < schema.value_sets@[s].members@.len() ==> lower(
                (#[trigger] schema.value_sets@[s].members@[i]).name@,
            ) != lower(word),
        0 <= m < schema.value_sets@[s].members@.len(),
        is_close(schema.value_sets@[s].members@[m], word),
    ensures
        exists|fix: FixView| #[trigger]
            suggestions_of(schema, children, range, acc).contains(fix) && puts_member(
                fix,
                schema.value_sets@[s].members@,
                word,
                sign,
                leaf_at(line, places[p]),
                children[c].offset,
            ),
{
    let ty = ValueType::BitFlags { value_set };
    let offset = children[c].offset;
    let token = leaf_at(line, places[p]);
    let tokens = line.values();
    values_come_in_order(line, places);
    assert(tokens[p] == token);
    lemma_signs(token.text, sign, word);
    let fix = lemma_first_offer(
        schema,
        token,
        sign,
        word,
        offset,
        value_set,
        s,
        true,
        range,
        m,
    );
    assert forall|scope: ScopeView, at: Seq<FixView>|
        field_type(scope, line) == Some(ty) implies (#[trigger] field_suggestions(
        schema,
        scope,
        line,
        offset,
        range,
        at,
    )).contains(fix) by {
        lemma_flags_reach(
            schema,
            tokens,
            tokens.len() as int,
            offset,
            value_set@,
            range,
            at,
            p,
            fix,
        );
    }
    lemma_line_offers(schema, children, c, block, inner, line, ty, range, acc, fix);
}

proof fn lemma_listed_reach(
    schema: Schema,
    specs: Seq<ValueType>,
    tokens: Seq<LeafView>,
    n: int,
    offset: int,
    value_set: String,
    range: Span,
    acc: Seq<FixView>,
    p: int,
    fix: FixView,
)
    requires
        0 <= p < n <= tokens.len(),
        n <= specs.len(),
        specs[p] == (ValueType::Enum { value_set }),
        forall|at: Seq<FixView>|
            (#[trigger] token_suggestions(
                schema,
                tokens[p],
                offset,
                value_set@,
                false,
                range,
                at,
            )).contains(fix),
    ensures
        listed_suggestions(schema, specs, tokens, n, offset, range, acc).contains(fix),
    decreases n,
{
    let before = listed_suggestions(schema, specs, tokens, n - 1, offset, range, acc);
    let all = listed_suggestions(schema, specs, tokens, n, offset, range, acc);
    if p < n - 1 {
        lemma_listed_reach(
            schema,
            specs,
            tokens,
            n - 1,
            offset,
            value_set,
            range,
            acc,
            p,
            fix,
        );
        assert(before.take(before.len() as int) =~= before);
        match specs[n - 1] {
            ValueType::Enum { value_set: set } => {
                lemma_token_keeps(schema, tokens[n - 1], offset, set@, false, range, before);
            },
            ValueType::BitFlags { value_set: set } => {
                lemma_token_keeps(schema, tokens[n - 1], offset, set@, true, range, before);
            },
            _ => {},
        }
        lemma_kept(before, all, fix);
    }
}

/// Law: where a line asks for a sequence of types and one of them is a member of a set
/// that its value is not, and some member is close to it, a close member is offered in
/// its place.
pub proof fn close_members_of_sequences_are_offered(
    schema: Schema,
    children: Seq<ChildView>,
    c: int,
    block: NodeView,
    inner: Option<NodeView>,
    line: NodeView,
    specs: Vec<ValueType>,
    value_set: String,
    s: int,
    places: Seq<int>,
    p: int,
    range: Span,
    acc: Seq<FixView>,
    m: int,
)
    requires
        line_has_type(
            schema,
            children,
            c,
            block,
            inner,
            line,
            ValueType::TokenList { tokens: specs },
        ),
        counts_set(schema.value_sets@, s),
        schema.value_sets@[s].id@ == value_set@,
        value_places(line, places),
        0 <= p < places.len(),
        p < specs@.len(),
        specs@[p] == (ValueType::Enum { value_set }),
        leaf_at(line, places[p]).text.len() > 0,
        token_meets(leaf_at(line, places[p]), children[c].offset, range),
        node_meets(block, children[c].offset, range),
        node_meets(line, children[c].offset, range),
        inner matches Some(module) ==> node_meets(module, children[c].offset, range),
        forall|i: int|
            0 <= i < schema.value_sets@[s].members@.len() ==> lower(
                (#[trigger] schema.value_sets@[s].members@[i]).name@,
            ) != lower(leaf_at(line, places[p]).text),
        0 <= m < schema.value_sets@[s].members@.len(),
        is_close(schema.value_sets@[s].members@[m], leaf_at(line, places[p]).text),
    ensures
        exists|fix: FixView| #[trigger]
            suggestions_of(schema, children, range, acc).contains(fix) && puts_member(
                fix,
                schema.value_sets@[s].members@,
                leaf_at(line, places[p]).text,
                Seq::empty(),
                leaf_at(line, places[p]),
                children[c].offset,
            ),
{
    let ty = ValueType::TokenList { tokens: specs };
    let offset = children[c].offset;
    let token = leaf_at(line, places[p]);
    let tokens = line.values();
    values_come_in_order(line, places);
    assert(tokens[p] == token);
    assert(token.text =~= Seq::<char>::empty() + token.text);
    let fix = lemma_first_offer(
        schema,
        token,
        Seq::empty(),
        token.text,
        offset,
        value_set,
        s,
        false,
        range,
        m,
    );
    assert forall|scope: ScopeView, at: Seq<FixView>|
        field_type(scope, line) == Some(ty) implies (#[trigger] field_suggestions(
        schema,
        scope,
        line,
        offset,
        range,
        at,
    )).contains(fix) by {
        lemma_listed_reach(
            schema,
            specs@,
            tokens,
            shorter(specs@.len(), tokens.len()),
            offset,
            value_set,
            range,
            at,
            p,
            fix,
        );
    }
    lemma_line_offers(schema, children, c, block, inner, line, ty, range, acc, fix);
}

proof fn lemma_step_keeps(
    schema: Schema,
    parse: Parse,
    s: Seq<char>,
    d: DiagnosticView,
    index: Option<IndexView>,
    st: FixState,
)
    ensures
        keeps(st.out, diagnostic_step(schema, parse, s, d, index, st).out),
{
    let after = diagnostic_step(schema, parse, s, d, index, st).out;
    assert(after.take(st.out.len() as int) =~= st.out);
}

proof fn lemma_steps_keep(
    schema: Schema,
    parse: Parse,
    s: Seq<char>,
    range: Span,
    diags: Seq<DiagnosticView>,
    index: Option<IndexView>,
    st: FixState,
)
    ensures
        keeps(st.out, diagnostic_steps(schema, parse, s, range, diags, index, st).out),
    decreases diags.len(),
{
    if diags.len() == 0 {
        assert(st.out.take(st.out.len() as int) =~= st.out);
    } else {
        let before = diagnostic_steps(schema, parse, s, range, diags.drop_last(), index, st);
        lemma_steps_keep(schema, parse, s, range, diags.drop_last(), index, st);
        lemma_step_keeps(schema, parse, s, diags.last(), index, before);
        if meets(diags.last().span, range) {
            lemma_keeps_on(
                st.out,
                before.out,
                diagnostic_step(schema, parse, s, diags.last(), index, before).out,
            );
        }
    }
}

/// Law: every replacement that is offered for the words of a document is among its
/// fixes, and so is every missing end.
pub proof fn fixes_hold_all_offers(
    schema: Schema,
    parse: Parse,
    s: Seq<char>,
    range: Span,
    diags: Seq<DiagnosticView>,
    index: Option<IndexView>,
    fix: FixView,
)
    requires
        ({
            let ends = missing_ends(parse.errors@, s, range, Seq::empty());
            suggestions_of(schema, child_views(parse.children@), range, ends).contains(fix)
        }),
    ensures
        fixes_of(schema, parse, s, range, diags, index).contains(fix),
{
    let ends = missing_ends(parse.errors@, s, range, Seq::empty());
    let members = suggestions_of(schema, child_views(parse.children@), range, ends);
    let st = FixState { out: members, codes: Seq::empty(), scaffolds: Seq::empty() };
    lemma_steps_keep(schema, parse, s, range, diags, index, st);
    lemma_kept(members, fixes_of(schema, parse, s, range, diags, index), fix);
}

} // verus!
