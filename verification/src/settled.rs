//! Formatting settles: what was formatted once needs no more edits.
//!
//! The indentation of a line follows from the scopes that are open before it, and
//! those follow from the words of the lines before it. Blanks at the start of a
//! line change neither.

use vstd::prelude::*;
use vstd::string::*;

use crate::format::{
    EditView, advance, coalesced, coalescing_keeps_the_order, coalescing_keeps_the_result,
    content_end, depth_at, depths_in, depths_of, edited, edited_prefix, edits_end,
    element_depths, formatting_changes_only_blanks, formatting_only_reindents, in_order,
    indent_edits, indent_end, indented_at, is_blank, lemma_indent_end, lemma_line_stop,
    line_edits, line_stop, reindents_all, repeated, token_depth, unblanked,
};
use crate::kind::SyntaxKind;
use crate::incremental::{lemma_last_token_newline, lemma_nonempty, lemma_offset_strict};
use crate::lexer::{
    eol_char, lemma_token_text_concat, lemma_token_text_one, lex, lex_after_blanks,
    lex_is_line_local, lex_is_lossless, token_offset, token_text, TokenView,
};
use crate::outline::is_scope;
use crate::parser::{
    add_children, base_of, close_all, close_top, initial_state, leaves, lemma_line_end,
    lemma_offset_end, lemma_offset_sub, line_blank, line_end, line_is_end, line_len, line_node,
    loose_tokens, parse_text, run, step, ChildView, ErrorView, FrameView, OpenerOracle, StateView,
    SyntaxErrorKind,
};
use crate::scopes::{
    depths_from, heads_of, lemma_blank_first, lemma_depths_from_len, lemma_join, lemma_step_heads,
    line_depth, nested, opens_scope, text_depth, text_heads,
};
use crate::text::{blen, byte_at};
use crate::tree::{ElementView, NodeView};

verus! {

// ---------------------------------------------------------------------------
// Scopes in the tree
// ---------------------------------------------------------------------------
spec fn stack_depths(stack: Seq<FrameView>, base: int, acc: Seq<(u32, u32)>) -> Seq<(u32, u32)>
    decreases stack.len(),
{
    if stack.len() == 0 {
        acc
    } else {
        depths_in(
            stack.last().children,
            base,
            nested(stack.len()),
            true,
            stack_depths(stack.drop_last(), base, acc),
        )
    }
}

spec fn state_depths(st: StateView) -> Seq<(u32, u32)> {
    stack_depths(st.stack, base_of(st.stack), depths_of(st.done))
}

/// Every open frame is a scope, and the outermost one starts inside the text.
spec fn scoped(st: StateView) -> bool {
    &&& 0 <= st.pos
    &&& forall|i: int| 0 <= i < st.stack.len() ==> is_scope((#[trigger] st.stack[i]).kind)
    &&& st.stack.len() > 0 ==> 0 <= base_of(st.stack) <= st.pos
}

/// The entries of a line of tokens that starts at `pos`.
spec fn entries(line: Seq<TokenView>, pos: int, depth: u32) -> Seq<(u32, u32)> {
    Seq::new(line.len(), |k: int| ((pos + token_offset(line, k + 1)) as u32, depth))
}

proof fn lemma_offset_bound(line: Seq<TokenView>, k: int)
    requires
        0 <= k <= line.len(),
    ensures
        0 <= token_offset(line, k) <= line_len(line),
{
    lemma_offset_sub(line, k, line.len() as int, line.len() as int);
    lemma_offset_end(line);
}

proof fn lemma_offset_short(line: Seq<TokenView>, k: int)
    requires
        0 <= k < line.len(),
    ensures
        token_offset(line.drop_last(), k) == token_offset(line, k),
{
    assert(line.drop_last().take(k) =~= line.take(k));
}

proof fn lemma_leaves_depths(
    line: Seq<TokenView>,
    at: int,
    base: int,
    depth: u32,
    in_scope: bool,
    acc: Seq<(u32, u32)>,
)
    requires
        0 <= base,
        0 <= at,
        base + at + line_len(line) <= u32::MAX,
    ensures
        depths_in(leaves(line, at), base, depth, in_scope, acc) == acc + entries(
            line,
            base + at,
            token_depth(depth, in_scope),
        ),
    decreases line.len(),
{
    let all = leaves(line, at);
    let mine = entries(line, base + at, token_depth(depth, in_scope));
    if line.len() > 0 {
        let n = line.len() - 1;
        let short = line.drop_last();
        lemma_offset_bound(line, n);
        lemma_offset_bound(line, n + 1);
        assert(line.take(n) =~= short);
        assert(line_len(short) == token_offset(line, n));
        lemma_leaves_depths(short, at, base, depth, in_scope, acc);
        assert(all.drop_last() =~= leaves(short, at)) by {
            assert forall|k: int| 0 <= k < n implies all[k] == leaves(short, at)[k] by {
                lemma_offset_short(line, k);
                if k + 1 < line.len() {
                    lemma_offset_short(line, k + 1);
                }
            }
        }
        assert(mine.drop_last() =~= entries(short, base + at, token_depth(depth, in_scope))) by {
            assert forall|k: int| 0 <= k < n implies mine[k] == entries(
                short,
                base + at,
                token_depth(depth, in_scope),
            )[k] by {
                lemma_offset_short(line, k + 1);
            }
        }
        assert(acc + mine =~= (acc + mine.drop_last()).push(mine.last()));
        let last = at + token_offset(line, n + 1);
        assert((base as u32).wrapping_add(last as u32) == (base + last) as u32);
        let before = depths_in(leaves(short, at), base, depth, in_scope, acc);
        assert(element_depths(all.last(), base, depth, in_scope, before) == before.push(
            ((base + last) as u32, token_depth(depth, in_scope)),
        ));
        assert(depths_in(all, base, depth, in_scope, acc) == before.push(mine.last()));
    } else {
        assert(all =~= Seq::<ElementView>::empty());
        assert(acc + mine =~= acc);
    }
}

proof fn lemma_depths_in_concat(
    a: Seq<ElementView>,
    b: Seq<ElementView>,
    base: int,
    depth: u32,
    in_scope: bool,
    acc: Seq<(u32, u32)>,
)
    ensures
        depths_in(a + b, base, depth, in_scope, acc) == depths_in(
            b,
            base,
            depth,
            in_scope,
            depths_in(a, base, depth, in_scope, acc),
        ),
    decreases b.len(),
{
    if b.len() == 0 {
        assert(a + b =~= a);
    } else {
        assert((a + b).drop_last() =~= a + b.drop_last());
        lemma_depths_in_concat(a, b.drop_last(), base, depth, in_scope, acc);
    }
}

proof fn lemma_depths_in_one(
    e: ElementView,
    base: int,
    depth: u32,
    in_scope: bool,
    acc: Seq<(u32, u32)>,
)
    ensures
        depths_in(seq![e], base, depth, in_scope, acc) == element_depths(
            e,
            base,
            depth,
            in_scope,
            acc,
        ),
{
    assert(seq![e].drop_last() =~= Seq::<ElementView>::empty());
    reveal_with_fuel(depths_in, 2);
}

proof fn lemma_add_depths(
    stack: Seq<FrameView>,
    elements: Seq<ElementView>,
    base: int,
    acc: Seq<(u32, u32)>,
)
    requires
        stack.len() > 0,
    ensures
        stack_depths(add_children(stack, elements), base, acc) == depths_in(
            elements,
            base,
            nested(stack.len()),
            true,
            stack_depths(stack, base, acc),
        ),
{
    let next = add_children(stack, elements);
    assert(next.drop_last() =~= stack.drop_last());
    lemma_depths_in_concat(
        stack.last().children,
        elements,
        base,
        nested(stack.len()),
        true,
        stack_depths(stack.drop_last(), base, acc),
    );
}

proof fn lemma_close_depths(st: StateView, end: int)
    requires
        st.stack.len() > 0,
        scoped(st),
    ensures
        state_depths(close_top(st, end)) == state_depths(st),
        scoped(close_top(st, end)),
{
    let top = st.stack.last();
    let base = base_of(st.stack);
    let node = ElementView::Node(
        NodeView { kind: top.kind, start: top.start - base, end: end - base, children: top.children },
    );
    let next = close_top(st, end);
    let rest = st.stack.drop_last();
    assert(top == st.stack[st.stack.len() - 1]);
    if st.stack.len() == 1 {
        reveal_with_fuel(stack_depths, 2);
        reveal_with_fuel(nested, 2);
        assert(rest =~= Seq::<FrameView>::empty());
        assert(next.done.drop_last() =~= st.done);
    } else {
        lemma_add_depths(rest, seq![node], base, depths_of(st.done));
        lemma_depths_in_one(
            node,
            base,
            nested(rest.len()),
            true,
            stack_depths(rest, base, depths_of(st.done)),
        );
        assert(next.stack[0].start == base);
        assert forall|i: int| 0 <= i < next.stack.len() implies is_scope(
            (#[trigger] next.stack[i]).kind,
        ) by {
            assert(next.stack[i].kind == st.stack[i].kind);
        }
    }
}

proof fn lemma_loose_depths(done: Seq<ChildView>, line: Seq<TokenView>, pos: int, k: int)
    requires
        0 <= k <= line.len(),
        0 <= pos,
        pos + line_len(line) <= u32::MAX,
    ensures
        depths_of(done + loose_tokens(line, pos).take(k)) == depths_of(done) + entries(
            line,
            pos,
            0,
        ).take(k),
    decreases k,
{
    let all = loose_tokens(line, pos);
    let mine = entries(line, pos, 0);
    if k == 0 {
        assert(done + all.take(0) =~= done);
        assert(depths_of(done) + mine.take(0) =~= depths_of(done));
    } else {
        lemma_loose_depths(done, line, pos, k - 1);
        let more = done + all.take(k);
        assert(more.drop_last() =~= done + all.take(k - 1));
        lemma_offset_bound(line, k - 1);
        lemma_offset_bound(line, k);
        lemma_offset_sub(line, k - 1, k, k);
        assert(depths_of(done) + mine.take(k) =~= (depths_of(done) + mine.take(k - 1)).push(
            mine[k - 1],
        ));
    }
}

proof fn lemma_node_depths(
    kind: SyntaxKind,
    line: Seq<TokenView>,
    at: int,
    base: int,
    depth: u32,
    in_scope: bool,
    acc: Seq<(u32, u32)>,
)
    requires
        0 <= base,
        0 <= at,
        base + at + line_len(line) <= u32::MAX,
        !is_scope(kind),
    ensures
        element_depths(line_node(kind, line, at), base, depth, in_scope, acc) == acc + entries(
            line,
            base + at,
            depth,
        ),
{
    lemma_leaves_depths(line, at, base, depth, false, acc);
}

proof fn lemma_step_depths<O: OpenerOracle>(oracle: O, st: StateView, line: Seq<TokenView>)
    requires
        scoped(st),
        st.pos + line_len(line) <= u32::MAX,
    ensures
        state_depths(step(oracle, st, line)) == state_depths(st) + entries(
            line,
            st.pos,
            line_depth(oracle, heads_of(st.stack), line),
        ),
        scoped(step(oracle, st, line)),
{
    let next = step(oracle, st, line);
    let heads = heads_of(st.stack);
    let depth = line_depth(oracle, heads, line);
    let n = st.stack.len();
    let base = if n > 0 {
        base_of(st.stack)
    } else {
        st.pos
    };
    let elements = leaves(line, st.pos - base);
    let before = state_depths(st);
    let done = depths_of(st.done);
    reveal_with_fuel(nested, 2);
    if n > 0 {
        assert(heads.last() == st.stack.last().head);
        assert(st.stack.last() == st.stack[n - 1]);
    }
    if line_blank(line) {
        if n == 0 {
            lemma_loose_depths(st.done, line, st.pos, line.len() as int);
            assert(loose_tokens(line, st.pos).take(line.len() as int) =~= loose_tokens(
                line,
                st.pos,
            ));
            assert(entries(line, st.pos, 0).take(line.len() as int) =~= entries(line, st.pos, 0));
        } else {
            lemma_add_depths(st.stack, elements, base, done);
            lemma_leaves_depths(line, st.pos - base, base, nested(n), true, before);
            lemma_add_scoped(st, elements);
            assert(state_depths(next) == before + entries(line, st.pos, depth));
        }
    } else if line_is_end(line) {
        if n == 0 {
            let child = ChildView {
                offset: st.pos,
                element: line_node(SyntaxKind::ERROR, line, 0),
            };
            assert(st.done.push(child).drop_last() =~= st.done);
            lemma_node_depths(SyntaxKind::ERROR, line, 0, st.pos, 0, false, done);
            assert(state_depths(next) == before + entries(line, st.pos, depth));
        } else {
            let mid = StateView { stack: add_children(st.stack, elements), ..st };
            lemma_add_depths(st.stack, elements, base, done);
            lemma_leaves_depths(line, st.pos - base, base, nested(n), true, before);
            lemma_add_scoped(st, elements);
            lemma_close_depths(mid, next.pos);
            assert(state_depths(next) == before + entries(line, st.pos, depth));
        }
    } else if opens_scope(oracle, heads, line) {
        let frame = next.stack.last();
        assert(next.stack.drop_last() =~= st.stack);
        assert(base_of(next.stack) == base);
        lemma_leaves_depths(line, st.pos - base, base, nested(n + 1), true, before);
        assert(stack_depths(st.stack, base, done) == before);
        assert(next.stack.len() == n + 1);
        assert(frame.children == elements);
        assert(state_depths(next) == before + entries(line, st.pos, depth));
        assert forall|i: int| 0 <= i < next.stack.len() implies is_scope(
            (#[trigger] next.stack[i]).kind,
        ) by {
            if i < n {
                assert(next.stack[i] == st.stack[i]);
            }
        }
    } else if n == 0 {
        let child = ChildView { offset: st.pos, element: line_node(SyntaxKind::FIELD, line, 0) };
        assert(st.done.push(child).drop_last() =~= st.done);
        lemma_node_depths(SyntaxKind::FIELD, line, 0, st.pos, 0, false, done);
    } else {
        let field = line_node(SyntaxKind::FIELD, line, st.pos - base);
        lemma_add_depths(st.stack, seq![field], base, done);
        lemma_depths_in_one(field, base, nested(n), true, before);
        lemma_node_depths(SyntaxKind::FIELD, line, st.pos - base, base, nested(n), true, before);
        lemma_add_scoped(st, seq![field]);
        assert(state_depths(next) == before + entries(line, st.pos, depth));
    }
}

proof fn lemma_add_scoped(st: StateView, elements: Seq<ElementView>)
    requires
        scoped(st),
        st.stack.len() > 0,
    ensures
        scoped(StateView { stack: add_children(st.stack, elements), ..st }),
        base_of(add_children(st.stack, elements)) == base_of(st.stack),
{
    let stack = add_children(st.stack, elements);
    assert forall|i: int| 0 <= i < stack.len() implies is_scope((#[trigger] stack[i]).kind) by {
        assert(stack[i].kind == st.stack[i].kind);
    }
}

/// The entries of the tokens from `i` on.
spec fn entries_from<O: OpenerOracle>(
    oracle: O,
    tokens: Seq<TokenView>,
    i: int,
    heads: Seq<Seq<char>>,
) -> Seq<(u32, u32)> {
    let depths = depths_from(oracle, tokens, i, heads);
    Seq::new(depths.len(), |k: int| (token_offset(tokens, i + k + 1) as u32, depths[k]))
}

proof fn lemma_run_depths<O: OpenerOracle>(
    oracle: O,
    tokens: Seq<TokenView>,
    i: int,
    st: StateView,
)
    requires
        0 <= i <= tokens.len(),
        scoped(st),
        st.pos == token_offset(tokens, i),
        line_len(tokens) <= u32::MAX,
    ensures
        state_depths(run(oracle, tokens, i, st)) == state_depths(st) + entries_from(
            oracle,
            tokens,
            i,
            heads_of(st.stack),
        ),
        scoped(run(oracle, tokens, i, st)),
    decreases tokens.len() - i,
{
    let heads = heads_of(st.stack);
    if i < tokens.len() {
        let end = line_end(tokens, i);
        lemma_line_end(tokens, i);
        let line = tokens.subrange(i, end);
        let next = step(oracle, st, line);
        lemma_offset_sub(tokens, i, end, end);
        lemma_offset_end(line);
        lemma_offset_bound(tokens, end);
        lemma_step_depths(oracle, st, line);
        lemma_step_heads(oracle, st, line);
        lemma_run_depths(oracle, tokens, end, next);
        lemma_depths_from_len(oracle, tokens, i, heads);
        lemma_depths_from_len(oracle, tokens, end, heads_of(next.stack));
        let depth = line_depth(oracle, heads, line);
        let all = entries_from(oracle, tokens, i, heads);
        let first = entries(line, st.pos, depth);
        let rest = entries_from(oracle, tokens, end, heads_of(next.stack));
        assert forall|k: int| 0 <= k < all.len() implies all[k] == (first + rest)[k] by {
            if k < end - i {
                lemma_offset_sub(tokens, i, end, i + k + 1);
            } else {
                assert(rest[k - (end - i)].0 == all[k].0);
            }
        }
        assert(all =~= first + rest);
        assert(state_depths(st) + first + rest =~= state_depths(st) + (first + rest));
    } else {
        assert(state_depths(st) + entries_from(oracle, tokens, i, heads) =~= state_depths(st));
    }
}

proof fn lemma_close_all_depths(st: StateView)
    requires
        scoped(st),
    ensures
        depths_of(close_all(st).done) == state_depths(st),
    decreases st.stack.len(),
{
    if st.stack.len() > 0 {
        let error = ErrorView {
            kind: SyntaxErrorKind::UnterminatedBlock,
            start: st.stack.last().start,
            end: st.pos,
        };
        let reported = StateView { errors: st.errors.push(error), ..st };
        lemma_close_depths(reported, st.pos);
        lemma_close_all_depths(close_top(reported, st.pos));
    }
}

/// The depth of every token of a parse follows from the lines of the text.
proof fn lemma_parse_depths<O: OpenerOracle>(oracle: O, text: Seq<char>)
    requires
        blen(text) <= u32::MAX,
    ensures
        depths_of(parse_text(oracle, text).children) == entries_from(
            oracle,
            lex(text),
            0,
            Seq::empty(),
        ),
{
    reveal(parse_text);
    let tokens = lex(text);
    lex_is_lossless(text);
    lemma_offset_end(tokens);
    let st = initial_state();
    assert(heads_of(st.stack) =~= Seq::<Seq<char>>::empty());
    lemma_run_depths(oracle, tokens, 0, st);
    lemma_close_all_depths(run(oracle, tokens, 0, st));
    assert(state_depths(st) =~= Seq::<(u32, u32)>::empty());
    assert(Seq::<(u32, u32)>::empty() + entries_from(oracle, tokens, 0, Seq::empty())
        =~= entries_from(oracle, tokens, 0, Seq::empty()));
}

// ---------------------------------------------------------------------------
// Lines of text
// ---------------------------------------------------------------------------
/// A line with the indentation of its depth. Blank lines and comment-only lines
/// stay as they are.
pub open spec fn reindented_line<O: OpenerOracle>(
    oracle: O,
    heads: Seq<Seq<char>>,
    line: Seq<char>,
    indent: Seq<char>,
) -> Seq<char> {
    match indented_at(line, 0, line.len() as int) {
        None => line,
        Some(at) => repeated(indent, text_depth(oracle, heads, line) as int) + line.skip(at),
    }
}

/// A text with every line reindented.
pub open spec fn reindented<O: OpenerOracle>(
    oracle: O,
    heads: Seq<Seq<char>>,
    s: Seq<char>,
    indent: Seq<char>,
) -> Seq<char>
    decreases s.len(),
{
    if s.len() == 0 {
        Seq::empty()
    } else {
        let stop = line_stop(s, 0);
        proof {
            lemma_line_stop(s, 0);
        }
        let line = s.take(stop);
        reindented_line(oracle, heads, line, indent) + reindented(
            oracle,
            text_heads(oracle, heads, line),
            s.skip(stop),
            indent,
        )
    }
}

/// Every line of a text has the indentation of its depth.
pub open spec fn settled<O: OpenerOracle>(
    oracle: O,
    heads: Seq<Seq<char>>,
    s: Seq<char>,
    indent: Seq<char>,
) -> bool
    decreases s.len(),
{
    s.len() == 0 || {
        let stop = line_stop(s, 0);
        proof {
            lemma_line_stop(s, 0);
        }
        let line = s.take(stop);
        &&& line_settled(oracle, heads, line, indent)
        &&& settled(oracle, text_heads(oracle, heads, line), s.skip(stop), indent)
    }
}

pub open spec fn line_settled<O: OpenerOracle>(
    oracle: O,
    heads: Seq<Seq<char>>,
    line: Seq<char>,
    indent: Seq<char>,
) -> bool {
    match indented_at(line, 0, line.len() as int) {
        None => true,
        Some(at) => line.take(at) == repeated(indent, text_depth(oracle, heads, line) as int),
    }
}

pub open spec fn all_blank(s: Seq<char>) -> bool {
    forall|k: int| 0 <= k < s.len() ==> is_blank(#[trigger] s[k])
}

/// Only the last character of a line can be a newline.
spec fn one_line(s: Seq<char>) -> bool {
    &&& s.len() > 0
    &&& forall|k: int| 0 <= k < s.len() - 1 ==> #[trigger] s[k] != '\n'
}

/// The line `[start, stop)` is to be indented, and its indentation ends at `at`.
spec fn indents(s: Seq<char>, start: int, stop: int, at: int) -> bool {
    &&& start <= at < stop
    &&& forall|k: int| start <= k < at ==> is_blank(#[trigger] s[k])
    &&& !is_blank(s[at])
    &&& s[at] != ';'
    &&& exists|j: int| at <= j < stop && !eol_char(#[trigger] s[j])
}

proof fn lemma_content_chars(s: Seq<char>, start: int, end: int)
    requires
        0 <= start <= end <= s.len(),
    ensures
        start <= content_end(s, start, end) <= end,
        start < content_end(s, start, end) ==> !eol_char(s[content_end(s, start, end) - 1]),
        forall|k: int| content_end(s, start, end) <= k < end ==> eol_char(#[trigger] s[k]),
    decreases end - start,
{
    if start < end && (s[end - 1] == '\n' || s[end - 1] == '\r') {
        lemma_content_chars(s, start, end - 1);
    }
}

proof fn lemma_indent_stops(s: Seq<char>, i: int, end: int)
    requires
        0 <= i <= end <= s.len(),
    ensures
        indent_end(s, i, end) < end ==> !is_blank(s[indent_end(s, i, end)]),
    decreases end - i,
{
    if i < end && is_blank(s[i]) {
        lemma_indent_stops(s, i + 1, end);
    }
}

proof fn lemma_indents(s: Seq<char>, start: int, stop: int, at: int)
    requires
        0 <= start <= stop <= s.len(),
    ensures
        indented_at(s, start, stop) == Some(at) <==> indents(s, start, stop, at),
{
    let content = content_end(s, start, stop);
    lemma_content_chars(s, start, stop);
    let found = indent_end(s, start, content);
    lemma_indent_end(s, start, content);
    lemma_indent_stops(s, start, content);
    if indented_at(s, start, stop) == Some(at) {
        assert(!eol_char(s[content - 1]));
    }
    if indents(s, start, stop, at) {
        let j = choose|j: int| at <= j < stop && !eol_char(#[trigger] s[j]);
        assert(at < content);
        if found < at {
            assert(is_blank(s[found]));
        }
        if at < found {
            assert(is_blank(s[at]));
        }
    }
}

/// What is to be indented depends on the line alone.
proof fn lemma_indented_shift(s: Seq<char>, start: int, stop: int)
    requires
        0 <= start <= stop <= s.len(),
    ensures
        indented_at(s, start, stop) == (match indented_at(s.subrange(start, stop), 0, stop - start) {
            Some(at) => Some(start + at),
            None => None,
        }),
{
    let line = s.subrange(start, stop);
    match indented_at(line, 0, stop - start) {
        Some(at) => {
            lemma_indents(line, 0, stop - start, at);
            assert forall|k: int| start <= k < start + at implies is_blank(#[trigger] s[k]) by {
                assert(line[k - start] == s[k]);
            }
            let j = choose|j: int| at <= j < stop - start && !eol_char(#[trigger] line[j]);
            assert(s[start + j] == line[j]);
            lemma_indents(s, start, stop, start + at);
        },
        None => {
            if indented_at(s, start, stop) is Some {
                let at = indented_at(s, start, stop)->0;
                lemma_indents(s, start, stop, at);
                assert forall|k: int| 0 <= k < at - start implies is_blank(#[trigger] line[k]) by {
                    assert(line[k] == s[start + k]);
                }
                let j = choose|j: int| at <= j < stop && !eol_char(#[trigger] s[j]);
                assert(line[j - start] == s[j]);
                lemma_indents(line, 0, stop - start, at - start);
            }
        },
    }
}

proof fn lemma_line_stop_first(s: Seq<char>, i: int)
    requires
        0 <= i < s.len(),
    ensures
        forall|k: int| i <= k < line_stop(s, i) - 1 ==> #[trigger] s[k] != '\n',
        line_stop(s, i) < s.len() ==> s[line_stop(s, i) - 1] == '\n',
        i < line_stop(s, i) <= s.len(),
    decreases s.len() - i,
{
    reveal_with_fuel(line_stop, 2);
    if s[i] != '\n' && i + 1 < s.len() {
        lemma_line_stop_first(s, i + 1);
    }
}

proof fn lemma_line_stop_is(s: Seq<char>, i: int, stop: int)
    requires
        0 <= i < stop <= s.len(),
        forall|k: int| i <= k < stop - 1 ==> #[trigger] s[k] != '\n',
        stop < s.len() ==> s[stop - 1] == '\n',
    ensures
        line_stop(s, i) == stop,
{
    lemma_line_stop_first(s, i);
    let found = line_stop(s, i);
    if found < stop {
        assert(s[found - 1] == '\n');
    }
    if stop < found {
        assert(s[stop - 1] == '\n');
    }
}

proof fn lemma_repeated_blanks(unit: Seq<char>, count: int)
    requires
        all_blank(unit),
    ensures
        all_blank(repeated(unit, count)),
    decreases count,
{
    if count > 0 {
        lemma_repeated_blanks(unit, count - 1);
    }
}

/// Reindenting a line keeps what it opens and closes, and settles it.
proof fn lemma_reindented_line<O: OpenerOracle>(
    oracle: O,
    heads: Seq<Seq<char>>,
    line: Seq<char>,
    indent: Seq<char>,
)
    requires
        one_line(line),
        all_blank(indent),
    ensures
        ({
            let fresh = reindented_line(oracle, heads, line, indent);
            &&& one_line(fresh)
            &&& line.last() == '\n' ==> fresh.last() == '\n'
            &&& text_heads(oracle, heads, fresh) == text_heads(oracle, heads, line)
            &&& line_settled(oracle, heads, fresh, indent)
        }),
{
    let n = line.len() as int;
    match indented_at(line, 0, n) {
        None => {},
        Some(at) => {
            lemma_indents(line, 0, n, at);
            let depth = text_depth(oracle, heads, line);
            let unit = repeated(indent, depth as int);
            let (old_blanks, rest) = (line.take(at), line.skip(at));
            let fresh = unit + rest;
            lemma_repeated_blanks(indent, depth as int);
            lemma_text_after_blanks(oracle, heads, old_blanks, rest);
            lemma_text_after_blanks(oracle, heads, unit, rest);
            assert(old_blanks + rest =~= line);
            assert forall|k: int| 0 <= k < fresh.len() - 1 implies #[trigger] fresh[k] != '\n' by {
                if k < unit.len() {
                    assert(is_blank(unit[k]));
                } else {
                    assert(fresh[k] == line[at + (k - unit.len())]);
                }
            }
            assert(fresh.last() == line.last());
            let m = unit.len() as int;
            assert forall|k: int| 0 <= k < m implies is_blank(#[trigger] fresh[k]) by {
                assert(fresh[k] == unit[k]);
            }
            assert(fresh[m] == line[at]);
            let j = choose|j: int| at <= j < n && !eol_char(#[trigger] line[j]);
            assert(fresh[m + (j - at)] == line[j]);
            lemma_indents(fresh, 0, fresh.len() as int, m);
            assert(fresh.take(m) =~= unit);
        },
    }
}

/// Blanks before a text change neither its scopes nor its depth.
pub proof fn lemma_text_after_blanks<O: OpenerOracle>(
    oracle: O,
    heads: Seq<Seq<char>>,
    blanks: Seq<char>,
    rest: Seq<char>,
)
    requires
        all_blank(blanks),
        rest.len() > 0,
        !is_blank(rest[0]),
    ensures
        text_heads(oracle, heads, blanks + rest) == text_heads(oracle, heads, rest),
        text_depth(oracle, heads, blanks + rest) == text_depth(oracle, heads, rest),
        lex(blanks + rest).len() == lex(rest).len() + if blanks.len() > 0 {
            1int
        } else {
            0int
        },
        blanks.len() > 0 ==> token_text(lex(blanks + rest).take(1)) == blanks,
        blanks.len() > 0 ==> depths_from(oracle, lex(blanks + rest), 0, heads)[1] == text_depth(
            oracle,
            heads,
            rest,
        ),
        lex(rest).len() > 0,
{
    assert forall|k: int| 0 <= k < blanks.len() implies crate::lexer::blank_char(
        #[trigger] blanks[k],
    ) by {
        assert(is_blank(blanks[k]));
    }
    lex_after_blanks(blanks, rest);
    lex_is_lossless(rest);
    if lex(rest).len() == 0 {
        assert(token_text(lex(rest)) =~= Seq::<char>::empty());
    }
    if blanks.len() > 0 {
        let w = TokenView { kind: SyntaxKind::WHITESPACE, text: blanks };
        lemma_blank_first(oracle, w, lex(rest), heads);
        assert((seq![w] + lex(rest)).take(1) =~= seq![w]);
        lemma_token_text_one(w);
    }
}

/// Reindented text is settled.
proof fn lemma_reindented_settles<O: OpenerOracle>(
    oracle: O,
    heads: Seq<Seq<char>>,
    s: Seq<char>,
    indent: Seq<char>,
)
    requires
        all_blank(indent),
    ensures
        settled(oracle, heads, reindented(oracle, heads, s, indent), indent),
        s.len() == 0 ==> reindented(oracle, heads, s, indent).len() == 0,
    decreases s.len(),
{
    if s.len() > 0 {
        let stop = line_stop(s, 0);
        lemma_line_stop_first(s, 0);
        let (line, rest) = (s.take(stop), s.skip(stop));
        let next = text_heads(oracle, heads, line);
        assert forall|k: int| 0 <= k < line.len() - 1 implies #[trigger] line[k] != '\n' by {
            assert(line[k] == s[k]);
        }
        lemma_reindented_line(oracle, heads, line, indent);
        lemma_reindented_settles(oracle, next, rest, indent);
        let fresh = reindented_line(oracle, heads, line, indent);
        let more = reindented(oracle, next, rest, indent);
        let all = fresh + more;
        assert forall|k: int| 0 <= k < fresh.len() - 1 implies #[trigger] all[k] != '\n' by {
            assert(all[k] == fresh[k]);
        }
        if more.len() > 0 {
            assert(line.last() == s[stop - 1]);
            assert(all[fresh.len() - 1] == fresh.last());
        }
        lemma_line_stop_is(all, 0, fresh.len() as int);
        assert(all.take(fresh.len() as int) =~= fresh);
        assert(all.skip(fresh.len() as int) =~= more);
    }
}

// ---------------------------------------------------------------------------
// The edits
// ---------------------------------------------------------------------------
proof fn lemma_advance(depths: Seq<(u32, u32)>, cursor: int, goal: int, offset: int)
    requires
        0 <= cursor <= goal < depths.len(),
        forall|j: int| cursor <= j < goal ==> (#[trigger] depths[j]).0 <= offset,
        depths[goal].0 > offset,
    ensures
        advance(depths, cursor, offset) == goal,
    decreases goal - cursor,
{
    if cursor < goal {
        assert(depths[cursor].0 <= offset);
        lemma_advance(depths, cursor + 1, goal, offset);
    }
}

/// The tokens of a text, before, on and after the line that starts at `i`.
proof fn lemma_lex_around(s: Seq<char>, i: int, stop: int)
    requires
        0 <= i <= stop <= s.len(),
        i == 0 || s[i - 1] == '\n',
        stop == s.len() || (i < stop && s[stop - 1] == '\n'),
    ensures
        lex(s.take(stop)) == lex(s.take(i)) + lex(s.subrange(i, stop)),
        lex(s) == lex(s.take(i)) + lex(s.subrange(i, stop)) + lex(s.skip(stop)),
        i > 0 ==> lex(s.take(i)).len() > 0 && lex(s.take(i)).last().kind == SyntaxKind::NEWLINE,
        i == 0 ==> lex(s.take(i)).len() == 0,
        stop == s.len() ==> lex(s.skip(stop)).len() == 0,
        stop < s.len() ==> lex(s.subrange(i, stop)).len() > 0 && lex(s.subrange(i, stop)).last().kind
            == SyntaxKind::NEWLINE,
{
    let (before, line, rest) = (s.take(i), s.subrange(i, stop), s.skip(stop));
    lex_is_line_local(before, line);
    assert(before + line =~= s.take(stop));
    if i > 0 {
        lemma_last_token_newline(before);
    }
    if stop < s.len() {
        lemma_last_token_newline(line);
        lex_is_line_local(s.take(stop), rest);
        assert(s.take(stop) + rest =~= s);
    } else {
        assert(s.take(stop) =~= s);
        assert(lex(rest) =~= Seq::<TokenView>::empty());
        assert(lex(s) =~= lex(before) + lex(line) + lex(rest));
    }
}

/// What the line that starts at `i` is and how deep it is.
proof fn lemma_line_at<O: OpenerOracle>(oracle: O, s: Seq<char>, i: int, cursor: int)
    requires
        0 <= i < s.len(),
        i == 0 || s[i - 1] == '\n',
        blen(s) <= u32::MAX,
        0 <= cursor <= lex(s.take(i)).len(),
    ensures
        ({
            let heads = text_heads(oracle, Seq::empty(), s.take(i));
            let stop = line_stop(s, i);
            let line = s.subrange(i, stop);
            let depths = depths_of(parse_text(oracle, s).children);
            &&& i < stop <= s.len()
            &&& stop == s.len() || s[stop - 1] == '\n'
            &&& line_stop(s.skip(i), 0) == stop - i
            &&& s.skip(i).take(stop - i) == line
            &&& s.skip(i).skip(stop - i) == s.skip(stop)
            &&& text_heads(oracle, Seq::empty(), s.take(stop)) == text_heads(oracle, heads, line)
            &&& cursor <= lex(s.take(stop)).len()
            &&& indented_at(s, i, stop) == (match indented_at(line, 0, line.len() as int) {
                Some(at) => Some(i + at),
                None => None,
            })
            &&& indented_at(s, i, stop) matches Some(at) ==> {
                let next = advance(depths, cursor, byte_at(s, at));
                &&& i <= at < stop
                &&& depth_at(depths, next) == text_depth(oracle, heads, line)
                &&& 0 <= next <= lex(s.take(stop)).len()
            }
        }),
{
    let none = Seq::<Seq<char>>::empty();
    let (before, heads) = (s.take(i), text_heads(oracle, none, s.take(i)));
    let stop = line_stop(s, i);
    lemma_line_stop_first(s, i);
    let (line, rest) = (s.subrange(i, stop), s.skip(stop));
    let tail = s.skip(i);
    assert forall|k: int| 0 <= k < stop - i - 1 implies #[trigger] tail[k] != '\n' by {
        assert(tail[k] == s[i + k]);
    }
    if stop < s.len() {
        assert(tail[stop - i - 1] == s[stop - 1]);
    }
    lemma_line_stop_is(tail, 0, stop - i);
    assert(tail.take(stop - i) =~= line);
    assert(tail.skip(stop - i) =~= rest);
    lemma_lex_around(s, i, stop);
    let (first, mine, last) = (lex(before), lex(line), lex(rest));
    lemma_join(oracle, first, mine, none);
    lemma_indented_shift(s, i, stop);
    if indented_at(s, i, stop) is Some {
        let at = indented_at(s, i, stop)->0;
        lemma_indents(s, i, stop, at);
        let (blanks, inner) = (s.subrange(i, at), s.subrange(at, stop));
        assert forall|k: int| 0 <= k < blanks.len() implies is_blank(#[trigger] blanks[k]) by {
            assert(blanks[k] == s[i + k]);
        }
        assert(inner[0] == s[at]);
        assert(blanks + inner =~= line);
        lemma_text_after_blanks(oracle, heads, blanks, inner);
        let m = if blanks.len() > 0 {
            1int
        } else {
            0int
        };
        let goal = first.len() + m;
        let tokens = lex(s);
        assert(tokens =~= first + (mine + last));
        lemma_join(oracle, first, mine + last, none);
        lemma_join(oracle, mine, last, heads);
        lemma_depths_from_len(oracle, first, 0, none);
        lemma_depths_from_len(oracle, mine, 0, heads);
        lemma_depths_from_len(oracle, tokens, 0, none);
        let all = depths_from(oracle, tokens, 0, none);
        assert(all[goal] == text_depth(oracle, heads, line));
        lemma_parse_depths(oracle, s);
        let depths = depths_of(parse_text(oracle, s).children);
        // The token that starts at the end of the indentation.
        assert(token_text(tokens.take(goal)) == s.take(at)) by {
            assert(tokens.take(goal) =~= first + mine.take(m));
            lemma_token_text_concat(first, mine.take(m));
            lex_is_lossless(before);
            if m == 0 {
                assert(mine.take(m) =~= Seq::<TokenView>::empty());
            }
            assert(token_text(mine.take(m)) =~= blanks);
            assert(before + blanks =~= s.take(at));
        }
        let offset = byte_at(s, at);
        assert(token_offset(tokens, goal) == offset);
        lemma_nonempty(s);
        lemma_offset_strict(tokens, goal, goal + 1);
        lex_is_lossless(s);
        lemma_offset_bound(tokens, goal + 1);
        assert(depths[goal].0 > offset);
        assert forall|j: int| cursor <= j < goal implies (#[trigger] depths[j]).0 <= offset by {
            lemma_offset_sub(tokens, j + 1, goal, goal);
        }
        lemma_advance(depths, cursor, goal, offset);
    }
}

/// Applying the edits of the lines from `i` on reindents them.
proof fn lemma_edits_reindent<O: OpenerOracle>(
    oracle: O,
    s: Seq<char>,
    indent: Seq<char>,
    i: int,
    cursor: int,
    acc: Seq<EditView>,
)
    requires
        0 <= i <= s.len(),
        i == 0 || i == s.len() || s[i - 1] == '\n',
        blen(s) <= u32::MAX,
        i < s.len() ==> 0 <= cursor <= lex(s.take(i)).len(),
        0 <= edits_end(acc) <= i,
    ensures
        edited(
            s,
            line_edits(depths_of(parse_text(oracle, s).children), s, indent, i, cursor, acc),
        ) == edited_prefix(s, acc) + s.subrange(edits_end(acc), i) + reindented(
            oracle,
            text_heads(oracle, Seq::empty(), s.take(i)),
            s.skip(i),
            indent,
        ),
    decreases s.len() - i,
{
    let depths = depths_of(parse_text(oracle, s).children);
    let heads = text_heads(oracle, Seq::empty(), s.take(i));
    let head = edited_prefix(s, acc) + s.subrange(edits_end(acc), i);
    if i < s.len() {
        lemma_line_at(oracle, s, i, cursor);
        let stop = line_stop(s, i);
        let line = s.subrange(i, stop);
        let fresh = reindented_line(oracle, heads, line, indent);
        let more = reindented(
            oracle,
            text_heads(oracle, Seq::empty(), s.take(stop)),
            s.skip(stop),
            indent,
        );
        assert(reindented(oracle, heads, s.skip(i), indent) == fresh + more);
        assert(s.subrange(edits_end(acc), stop) =~= s.subrange(edits_end(acc), i) + line);
        match indented_at(s, i, stop) {
            None => {
                lemma_edits_reindent(oracle, s, indent, stop, cursor, acc);
                assert(edited_prefix(s, acc) + s.subrange(edits_end(acc), stop) + more =~= head + (
                fresh + more));
            },
            Some(at) => {
                let next = advance(depths, cursor, byte_at(s, at));
                let desired = repeated(indent, depth_at(depths, next) as int);
                assert(line.skip(at - i) =~= s.subrange(at, stop));
                if desired == s.subrange(i, at) {
                    lemma_edits_reindent(oracle, s, indent, stop, next, acc);
                    assert(fresh =~= line);
                    assert(edited_prefix(s, acc) + s.subrange(edits_end(acc), stop) + more =~= head
                        + (fresh + more));
                } else {
                    let e = EditView { start: i, end: at, text: desired };
                    let longer = acc.push(e);
                    assert(longer.drop_last() =~= acc);
                    lemma_edits_reindent(oracle, s, indent, stop, next, longer);
                    assert(edited_prefix(s, longer) + s.subrange(at, stop) + more =~= head + (fresh
                        + more));
                }
            },
        }
    } else {
        let edits = line_edits(depths, s, indent, i, cursor, acc);
        assert(edits == acc);
        assert(s.subrange(edits_end(acc), i) =~= s.skip(edits_end(acc)));
        assert(edited(s, acc) =~= head + Seq::<char>::empty());
    }
}

/// Settled lines need no edits.
proof fn lemma_settled_edits<O: OpenerOracle>(
    oracle: O,
    s: Seq<char>,
    indent: Seq<char>,
    i: int,
    cursor: int,
    acc: Seq<EditView>,
)
    requires
        0 <= i <= s.len(),
        i == 0 || i == s.len() || s[i - 1] == '\n',
        blen(s) <= u32::MAX,
        i < s.len() ==> 0 <= cursor <= lex(s.take(i)).len(),
        settled(oracle, text_heads(oracle, Seq::empty(), s.take(i)), s.skip(i), indent),
    ensures
        line_edits(depths_of(parse_text(oracle, s).children), s, indent, i, cursor, acc) == acc,
    decreases s.len() - i,
{
    if i < s.len() {
        let depths = depths_of(parse_text(oracle, s).children);
        lemma_line_at(oracle, s, i, cursor);
        let stop = line_stop(s, i);
        match indented_at(s, i, stop) {
            None => {
                lemma_settled_edits(oracle, s, indent, stop, cursor, acc);
            },
            Some(at) => {
                let next = advance(depths, cursor, byte_at(s, at));
                assert(s.subrange(i, stop).take(at - i) =~= s.subrange(i, at));
                lemma_settled_edits(oracle, s, indent, stop, next, acc);
            },
        }
    }
}

// ---------------------------------------------------------------------------
// Laws
// ---------------------------------------------------------------------------
/// A text after formatting.
pub open spec fn formatted<O: OpenerOracle>(oracle: O, s: Seq<char>, indent: Seq<char>) -> Seq<
    char,
> {
    edited(s, coalesced(s, indent_edits(parse_text(oracle, s).children, s, indent)))
}

/// Law: formatting gives every line but blank ones and comments the indentation
/// of its depth: as many copies of the indentation unit as scopes enclose it.
pub proof fn formatting_indents_by_depth<O: OpenerOracle>(
    oracle: O,
    s: Seq<char>,
    indent: Seq<char>,
)
    requires
        blen(s) <= u32::MAX,
    ensures
        formatted(oracle, s, indent) == reindented(oracle, Seq::empty(), s, indent),
{
    let none = Seq::<EditView>::empty();
    coalescing_keeps_the_result(s, indent_edits(parse_text(oracle, s).children, s, indent));
    lemma_edits_reindent(oracle, s, indent, 0, 0, none);
    assert(s.take(0) =~= Seq::<char>::empty());
    assert(lex(s.take(0)) =~= Seq::<TokenView>::empty());
    assert(s.skip(0) =~= s);
    let all = reindented(oracle, Seq::empty(), s, indent);
    assert(edited_prefix(s, none) + s.subrange(0, 0) + all =~= all);
}

/// Law: formatted text needs no edits. Parsed and formatted again, with the same
/// indentation unit of blanks, it stays as it is.
pub proof fn formatting_settles<O: OpenerOracle>(oracle: O, s: Seq<char>, indent: Seq<char>)
    requires
        all_blank(indent),
        blen(s) <= u32::MAX,
        blen(formatted(oracle, s, indent)) <= u32::MAX,
    ensures
        ({
            let once = formatted(oracle, s, indent);
            let edits = indent_edits(parse_text(oracle, once).children, once, indent);
            &&& coalesced(once, edits) == Seq::<EditView>::empty()
            &&& formatted(oracle, once, indent) == once
        }),
{
    let once = formatted(oracle, s, indent);
    formatting_indents_by_depth(oracle, s, indent);
    lemma_reindented_settles(oracle, Seq::empty(), s, indent);
    assert(once.take(0) =~= Seq::<char>::empty());
    assert(lex(once.take(0)) =~= Seq::<TokenView>::empty());
    assert(once.skip(0) =~= once);
    lemma_settled_edits(oracle, once, indent, 0, 0, Seq::empty());
    assert(edited(once, Seq::empty()) =~= once);
}

/// Law: what formatting a document does. The edits are in order and apart, and
/// come from edits that each replace the leading blanks of a line by copies of the
/// indentation unit. Applied, they give the text with every line but blank ones
/// and comments led by the indentation of its depth, and no character but blanks
/// changes. Parsed and formatted again, that text gives no edits.
pub proof fn formatting_reindents_and_settles<O: OpenerOracle>(
    oracle: O,
    s: Seq<char>,
    indent: Seq<char>,
)
    requires
        all_blank(indent),
        blen(s) <= u32::MAX,
        blen(formatted(oracle, s, indent)) <= u32::MAX,
    ensures
        ({
            let lines = indent_edits(parse_text(oracle, s).children, s, indent);
            let edits = coalesced(s, lines);
            let once = edited(s, edits);
            let again = indent_edits(parse_text(oracle, once).children, once, indent);
            &&& reindents_all(s, indent, lines, s.len() as int)
            &&& in_order(s, edits)
            &&& edited(s, edits) == edited(s, lines)
            &&& once == reindented(oracle, Seq::empty(), s, indent)
            &&& unblanked(once) == unblanked(s)
            &&& coalesced(once, again) == Seq::<EditView>::empty()
        }),
{
    let children = parse_text(oracle, s).children;
    let lines = indent_edits(children, s, indent);
    formatting_only_reindents(children, s, indent);
    coalescing_keeps_the_order(s, lines);
    coalescing_keeps_the_result(s, lines);
    formatting_indents_by_depth(oracle, s, indent);
    formatting_changes_only_blanks(children, s, indent);
    formatting_settles(oracle, s, indent);
}

} // verus!
