//! Incremental reparse: block-granularity reparse-and-splice.
//!
//! At file scope every line belongs to exactly one top-level element, and an
//! element's parse depends only on its own text: no scope is open at a
//! top-level boundary, no token spans a newline, and the oracle sees only the
//! enclosing scope's keyword. So reparsing the edited region as a fragment and
//! splicing its elements between the old ones is exactly equivalent to a full
//! parse, provided the region is widened to line boundaries and the fragment
//! does not end with an open scope that would swallow the text after it.


use vstd::prelude::*;
use vstd::string::*;

use crate::kind::SyntaxKind;
use crate::lexer::{
    byte_len, lex, lex_is_line_local, lex_is_lossless, lex_token_shape, lemma_token_text_concat,
    lemma_token_text_one, token_offset, token_text, TokenView,
};
use crate::parser::{
    add_children, base_of, child_views, close_all, close_top, error_message, errors_match,
    initial_state, leaves, lemma_line_end, lemma_offset_end, lemma_offset_sub, line_blank, line_end,
    line_len, line_node, parse, parse_text, run, step, Child, ChildView, ErrorView, FrameView,
    OpenerOracle, Parse, ParseView, StateView, SyntaxError, SyntaxErrorKind,
};
use crate::text::{blen, get_range, lemma_encode_concat};
use crate::tree::{share, ElementView, NodeView};

verus! {

pub open spec fn shift_children(children: Seq<ChildView>, by: int) -> Seq<ChildView> {
    Seq::new(
        children.len(),
        |i: int| ChildView { offset: children[i].offset + by, ..children[i] },
    )
}

pub open spec fn shift_errors(errors: Seq<ErrorView>, by: int) -> Seq<ErrorView> {
    Seq::new(
        errors.len(),
        |i: int|
            ErrorView { start: errors[i].start + by, end: errors[i].end + by, ..errors[i] },
    )
}

pub open spec fn shift_stack(stack: Seq<FrameView>, by: int) -> Seq<FrameView> {
    Seq::new(stack.len(), |i: int| FrameView { start: stack[i].start + by, ..stack[i] })
}

/// The state reached by parsing on from `first`, which has no open scope, as
/// far as `rest` got from the start of the document.
pub open spec fn after(first: StateView, rest: StateView) -> StateView {
    StateView {
        done: first.done + shift_children(rest.done, first.pos),
        stack: shift_stack(rest.stack, first.pos),
        errors: first.errors + shift_errors(rest.errors, first.pos),
        pos: first.pos + rest.pos,
    }
}

/// Two parses, the second of text that follows the first.
pub open spec fn joined(first: ParseView, rest: ParseView) -> ParseView {
    ParseView {
        children: first.children + shift_children(rest.children, first.len),
        errors: first.errors + shift_errors(rest.errors, first.len),
        len: first.len + rest.len,
    }
}

proof fn lemma_add_children_shift(stack: Seq<FrameView>, elements: Seq<ElementView>, by: int)
    requires
        stack.len() > 0,
    ensures
        add_children(shift_stack(stack, by), elements) == shift_stack(
            add_children(stack, elements),
            by,
        ),
{
    assert(add_children(shift_stack(stack, by), elements) =~= shift_stack(
        add_children(stack, elements),
        by,
    ));
}

proof fn lemma_close_top_after(first: StateView, rest: StateView, end: int)
    requires
        first.stack.len() == 0,
        rest.stack.len() > 0,
    ensures
        close_top(after(first, rest), first.pos + end) == after(first, close_top(rest, end)),
{
    let all = after(first, rest);
    let base = base_of(rest.stack);
    let top = rest.stack.last();
    let node = ElementView::Node(
        NodeView {
            kind: top.kind,
            start: top.start - base,
            end: end - base,
            children: top.children,
        },
    );
    if rest.stack.len() == 1 {
        assert(close_top(all, first.pos + end).done =~= after(first, close_top(rest, end)).done);
        assert(close_top(all, first.pos + end).stack =~= after(first, close_top(rest, end)).stack);
    } else {
        lemma_add_children_shift(rest.stack.drop_last(), seq![node], first.pos);
        assert(all.stack.drop_last() =~= shift_stack(rest.stack.drop_last(), first.pos));
    }
}

proof fn lemma_step_after<O: OpenerOracle>(
    oracle: O,
    first: StateView,
    rest: StateView,
    line: Seq<TokenView>,
)
    requires
        first.stack.len() == 0,
    ensures
        step(oracle, after(first, rest), line) == after(first, step(oracle, rest, line)),
{
    let all = after(first, rest);
    let pos = first.pos;
    let end = rest.pos + line_len(line);
    let got = step(oracle, all, line);
    let want = after(first, step(oracle, rest, line));
    if rest.stack.len() > 0 {
        let elements = leaves(line, rest.pos - base_of(rest.stack));
        lemma_add_children_shift(rest.stack, elements, pos);
        let field = seq![line_node(SyntaxKind::FIELD, line, rest.pos - base_of(rest.stack))];
        lemma_add_children_shift(rest.stack, field, pos);
        let mid = StateView { stack: add_children(rest.stack, elements), ..rest };
        lemma_close_top_after(first, mid, end);
        assert(after(first, mid) =~= StateView { stack: add_children(all.stack, elements), ..all });
        assert(got.stack =~= want.stack);
        assert(got.done =~= want.done);
    } else {
        assert(got.stack =~= want.stack);
        assert(got.done =~= want.done);
        assert(got.errors =~= want.errors);
    }
}

proof fn lemma_run_after<O: OpenerOracle>(
    oracle: O,
    tokens: Seq<TokenView>,
    i: int,
    first: StateView,
    rest: StateView,
)
    requires
        first.stack.len() == 0,
        0 <= i <= tokens.len(),
    ensures
        run(oracle, tokens, i, after(first, rest)) == after(first, run(oracle, tokens, i, rest)),
    decreases tokens.len() - i,
{
    if i < tokens.len() {
        let end = line_end(tokens, i);
        lemma_line_end(tokens, i);
        let line = tokens.subrange(i, end);
        lemma_step_after(oracle, first, rest, line);
        lemma_run_after(oracle, tokens, end, first, step(oracle, rest, line));
    }
}

proof fn lemma_close_all_after(first: StateView, rest: StateView)
    requires
        first.stack.len() == 0,
    ensures
        close_all(after(first, rest)) == after(first, close_all(rest)),
    decreases rest.stack.len(),
{
    let all = after(first, rest);
    if rest.stack.len() > 0 {
        let error = ErrorView {
            kind: SyntaxErrorKind::UnterminatedBlock,
            start: rest.stack.last().start,
            end: rest.pos,
        };
        let reported = StateView { errors: rest.errors.push(error), ..rest };
        let shifted = ErrorView {
            kind: SyntaxErrorKind::UnterminatedBlock,
            start: all.stack.last().start,
            end: all.pos,
        };
        assert(after(first, reported).errors =~= all.errors.push(shifted));
        lemma_close_top_after(first, reported, rest.pos);
        lemma_close_all_after(first, close_top(reported, rest.pos));
    }
}

pub proof fn lemma_line_end_local(a: Seq<TokenView>, b: Seq<TokenView>, i: int)
    requires
        0 <= i < a.len(),
        a.last().kind == SyntaxKind::NEWLINE,
    ensures
        line_end(a + b, i) == line_end(a, i),
        line_end(a, i) <= a.len(),
    decreases a.len() - i,
{
    assert((a + b)[i] == a[i]);
    if a[i].kind != SyntaxKind::NEWLINE {
        lemma_line_end_local(a, b, i + 1);
    }
}

proof fn lemma_run_concat<O: OpenerOracle>(
    oracle: O,
    a: Seq<TokenView>,
    b: Seq<TokenView>,
    i: int,
    st: StateView,
)
    requires
        0 <= i <= a.len(),
        a.len() == 0 || a.last().kind == SyntaxKind::NEWLINE,
    ensures
        run(oracle, a + b, i, st) == run(oracle, a + b, a.len() as int, run(oracle, a, i, st)),
    decreases a.len() - i,
{
    if i < a.len() {
        let end = line_end(a, i);
        lemma_line_end(a, i);
        lemma_line_end_local(a, b, i);
        assert((a + b).subrange(i, end) =~= a.subrange(i, end));
        lemma_run_concat(oracle, a, b, end, step(oracle, st, a.subrange(i, end)));
    }
}

pub proof fn lemma_line_end_shift(a: Seq<TokenView>, b: Seq<TokenView>, i: int)
    requires
        0 <= i < b.len(),
    ensures
        line_end(a + b, a.len() + i) == a.len() + line_end(b, i),
    decreases b.len() - i,
{
    assert((a + b)[a.len() + i] == b[i]);
    if b[i].kind != SyntaxKind::NEWLINE && i + 1 < b.len() {
        lemma_line_end_shift(a, b, i + 1);
    }
    reveal_with_fuel(line_end, 2);
}

proof fn lemma_run_shift<O: OpenerOracle>(
    oracle: O,
    a: Seq<TokenView>,
    b: Seq<TokenView>,
    i: int,
    st: StateView,
)
    requires
        0 <= i <= b.len(),
    ensures
        run(oracle, a + b, a.len() + i, st) == run(oracle, b, i, st),
    decreases b.len() - i,
{
    if i < b.len() {
        let end = line_end(b, i);
        lemma_line_end(b, i);
        lemma_line_end_shift(a, b, i);
        assert((a + b).subrange(a.len() + i, a.len() + end) =~= b.subrange(i, end));
        lemma_run_shift(oracle, a, b, end, step(oracle, st, b.subrange(i, end)));
    }
}

proof fn lemma_after_initial(first: StateView)
    requires
        first.stack.len() == 0,
    ensures
        after(first, initial_state()) == first,
{
    assert(after(first, initial_state()).done =~= first.done);
    assert(after(first, initial_state()).stack =~= first.stack);
    assert(after(first, initial_state()).errors =~= first.errors);
}

/// No scope of `text` is left open at its end.
pub open spec fn closed<O: OpenerOracle>(oracle: O, text: Seq<char>) -> bool {
    run(oracle, lex(text), 0, initial_state()).stack.len() == 0
}

/// Text that is empty or ends with a newline.
pub open spec fn whole_lines(text: Seq<char>) -> bool {
    text.len() == 0 || text.last() == '\n'
}

pub proof fn lemma_last_token_newline(s: Seq<char>)
    requires
        s.len() > 0,
        s.last() == '\n',
    ensures
        lex(s).len() > 0,
        lex(s).last().kind == SyntaxKind::NEWLINE,
{
    let toks = lex(s);
    lex_is_lossless(s);
    if toks.len() == 0 {
        assert(token_text(toks) =~= Seq::<char>::empty());
    }
    let k = toks.len() - 1;
    lex_token_shape(s, k);
    assert(toks =~= toks.drop_last() + seq![toks.last()]);
    lemma_token_text_concat(toks.drop_last(), seq![toks.last()]);
    lemma_token_text_one(toks.last());
    let text = toks[k].text;
    assert(s.last() == text[text.len() - 1]);
}

/// Parsing is compositional at line boundaries where no scope is open: the
/// parse of the whole is the parse of the first part followed by the shifted
/// parse of the second.
pub proof fn parse_is_compositional<O: OpenerOracle>(oracle: O, a: Seq<char>, b: Seq<char>)
    requires
        whole_lines(a),
        closed(oracle, a),
    ensures
        parse_text(oracle, a + b) == joined(parse_text(oracle, a), parse_text(oracle, b)),
        closed(oracle, a + b) == closed(oracle, b),
{
    reveal(parse_text);
    let (ta, tb) = (lex(a), lex(b));
    lex_is_line_local(a, b);
    if a.len() > 0 {
        lemma_last_token_newline(a);
    } else {
        assert(ta =~= Seq::<TokenView>::empty());
    }
    let sa = run(oracle, ta, 0, initial_state());
    let sb = run(oracle, tb, 0, initial_state());
    lemma_run_concat(oracle, ta, tb, 0, initial_state());
    lemma_run_shift(oracle, ta, tb, 0, sa);
    lemma_after_initial(sa);
    lemma_run_after(oracle, tb, 0, sa, initial_state());
    lemma_close_all_after(sa, sb);
}

// ---------------------------------------------------------------------------
// Where a parse can be cut
// ---------------------------------------------------------------------------
/// The offset of the next top-level element.
spec fn pending(st: StateView) -> int {
    if st.stack.len() > 0 {
        base_of(st.stack)
    } else {
        st.pos
    }
}

/// What one or more lines do to the top-level elements.
spec fn extends(st: StateView, next: StateView) -> bool {
    &&& st.done.len() <= next.done.len()
    &&& next.done.take(st.done.len() as int) == st.done
    &&& next.done.len() == st.done.len() ==> pending(next) == pending(st)
    &&& next.done.len() > st.done.len() ==> next.done[st.done.len() as int].offset == pending(st)
}

proof fn lemma_extends_trans(a: StateView, b: StateView, c: StateView)
    requires
        extends(a, b),
        extends(b, c),
    ensures
        extends(a, c),
{
    assert(c.done.take(a.done.len() as int) =~= b.done.take(a.done.len() as int));
    if b.done.len() > a.done.len() {
        assert(c.done.take(b.done.len() as int)[a.done.len() as int] == b.done[a.done.len() as int]);
    }
}

proof fn lemma_close_top_extends(st: StateView, end: int)
    requires
        st.stack.len() > 0,
    ensures
        extends(st, close_top(st, end)),
        st.stack.len() == 1 ==> close_top(st, end).done.len() == st.done.len() + 1,
        st.stack.len() > 1 ==> close_top(st, end).done.len() == st.done.len(),
        close_top(st, end).stack.len() == st.stack.len() - 1,
{
    let next = close_top(st, end);
    assert(next.done.take(st.done.len() as int) =~= st.done);
}

proof fn lemma_close_all_extends(st: StateView)
    ensures
        extends(st, close_all(st)),
        close_all(st).done.len() == st.done.len() + (if st.stack.len() > 0 {
            1int
        } else {
            0int
        }),
    decreases st.stack.len(),
{
    if st.stack.len() == 0 {
        assert(st.done.take(st.done.len() as int) =~= st.done);
    } else {
        let error = ErrorView {
            kind: SyntaxErrorKind::UnterminatedBlock,
            start: st.stack.last().start,
            end: st.pos,
        };
        let reported = StateView { errors: st.errors.push(error), ..st };
        let next = close_top(reported, st.pos);
        lemma_close_top_extends(reported, st.pos);
        lemma_close_all_extends(next);
        lemma_extends_trans(reported, next, close_all(st));
        assert(extends(st, close_all(st)));
    }
}

proof fn lemma_step_extends<O: OpenerOracle>(oracle: O, st: StateView, line: Seq<TokenView>)
    requires
        line.len() > 0,
    ensures
        extends(st, step(oracle, st, line)),
        ({
            let next = step(oracle, st, line);
            let added = next.done.len() - st.done.len();
            &&& added > 0 ==> next.stack.len() == 0
            &&& added > 1 ==> forall|k: int|
                0 <= k < added ==> (#[trigger] next.done[st.done.len() + k]).offset == st.pos
                    + token_offset(line, k) && added == line.len()
        }),
{
    let next = step(oracle, st, line);
    lemma_offset_end(line);
    if st.stack.len() > 0 {
        let elements = leaves(line, st.pos - base_of(st.stack));
        let mid = StateView { stack: add_children(st.stack, elements), ..st };
        lemma_close_top_extends(mid, st.pos + line_len(line));
        assert(st.done.take(st.done.len() as int) =~= st.done);
    }
    assert(next.done.take(st.done.len() as int) =~= st.done);
}

proof fn lemma_run_extends<O: OpenerOracle>(oracle: O, tokens: Seq<TokenView>, i: int, st: StateView)
    requires
        0 <= i <= tokens.len(),
    ensures
        extends(st, run(oracle, tokens, i, st)),
    decreases tokens.len() - i,
{
    if i < tokens.len() {
        let end = line_end(tokens, i);
        lemma_line_end(tokens, i);
        let line = tokens.subrange(i, end);
        lemma_step_extends(oracle, st, line);
        lemma_run_extends(oracle, tokens, end, step(oracle, st, line));
        lemma_extends_trans(st, step(oracle, st, line), run(oracle, tokens, i, st));
    } else {
        assert(st.done.take(st.done.len() as int) =~= st.done);
    }
}

/// No token is empty.
pub open spec fn nonempty_tokens(tokens: Seq<TokenView>) -> bool {
    forall|k: int| 0 <= k < tokens.len() ==> (#[trigger] tokens[k]).text.len() > 0
}

pub proof fn lemma_offset_strict(tokens: Seq<TokenView>, i: int, j: int)
    requires
        nonempty_tokens(tokens),
        0 <= i < j <= tokens.len(),
    ensures
        token_offset(tokens, i) < token_offset(tokens, j),
{
    lemma_offset_sub(tokens, i, tokens.len() as int, j);
    let part = tokens.subrange(i, tokens.len() as int).take(j - i);
    assert(part[0] == tokens[i]);
    assert(token_text(part).len() >= part[0].text.len());
    lemma_encode_concat(part[0].text, token_text(part.drop_first()));
    crate::text::lemma_blen_bound(token_text(part));
}

/// The parse of the first `t` tokens reaches `st`.
spec fn reaches<O: OpenerOracle>(
    oracle: O,
    tokens: Seq<TokenView>,
    t: int,
    st: StateView,
) -> bool {
    &&& 0 <= t <= tokens.len()
    &&& t == 0 || tokens[t - 1].kind == SyntaxKind::NEWLINE
    &&& run(oracle, tokens.take(t), 0, initial_state()) == st
    &&& st.pos == token_offset(tokens, t)
}

proof fn lemma_find_cut<O: OpenerOracle>(
    oracle: O,
    tokens: Seq<TokenView>,
    i: int,
    st: StateView,
    k: int,
    u: int,
) -> (t: int)
    requires
        nonempty_tokens(tokens),
        reaches(oracle, tokens, i, st),
        run(oracle, tokens, 0, initial_state()) == run(oracle, tokens, i, st),
        ({
            let last = close_all(run(oracle, tokens, 0, initial_state()));
            &&& 0 <= k < last.done.len()
            &&& 0 <= u <= tokens.len()
            &&& u == 0 || tokens[u - 1].kind == SyntaxKind::NEWLINE
            &&& last.done[k].offset == token_offset(tokens, u)
        }),
        st.done.len() < k || (st.done.len() == k && st.stack.len() == 0),
    ensures
        i <= t,
        ({
            let cut = run(oracle, tokens.take(t), 0, initial_state());
            &&& reaches(oracle, tokens, t, cut)
            &&& cut.stack.len() == 0
            &&& cut.done.len() == k
            &&& t == u
        }),
    decreases tokens.len() - i,
{
    let finish = run(oracle, tokens, 0, initial_state());
    let last = close_all(finish);
    lemma_close_all_extends(finish);
    lemma_run_extends(oracle, tokens, i, st);
    lemma_extends_trans(st, finish, last);
    if st.done.len() == k && st.stack.len() == 0 {
        assert(last.done[k].offset == st.pos);
        if i < u {
            lemma_offset_strict(tokens, i, u);
        }
        if u < i {
            lemma_offset_strict(tokens, u, i);
        }
        return i;
    }
    if i == tokens.len() {
        assert(false);
    }
    let end = line_end(tokens, i);
    lemma_line_end(tokens, i);
    let line = tokens.subrange(i, end);
    let next = step(oracle, st, line);
    lemma_step_extends(oracle, st, line);
    lemma_offset_sub(tokens, i, end, end);
    lemma_offset_end(line);
    lemma_run_extends(oracle, tokens, end, next);
    lemma_extends_trans(next, finish, last);
    if next.done.len() > k {
        // The line added several tokens at once and `k` is inside it.
        let j = k - st.done.len();
        assert(next.done[st.done.len() + j].offset == st.pos + token_offset(line, j));
        assert(last.done.take(next.done.len() as int)[k] == next.done[k]);
        lemma_offset_sub(tokens, i, end, i + j);
        if i + j < u {
            lemma_offset_strict(tokens, i + j, u);
        }
        if u < i + j {
            lemma_offset_strict(tokens, u, i + j);
        }
        assert(tokens[i + j - 1].kind != SyntaxKind::NEWLINE);
        assert(false);
    }
    let first = tokens.take(i);
    assert(first + line =~= tokens.take(end));
    lemma_run_concat(oracle, first, line, 0, initial_state());
    lemma_run_shift(oracle, first, line, 0, st);
    lemma_single_line(oracle, line, st);
    if end == tokens.len() && tokens[end - 1].kind != SyntaxKind::NEWLINE {
        // No line follows, so the element at `k` would have to exist already.
        assert(finish == next);
        assert(false) by {
            if next.done.len() == k {
                assert(next.done.len() > st.done.len());
            }
        }
    }
    lemma_find_cut(oracle, tokens, end, next, k, u)
}

proof fn lemma_single_line<O: OpenerOracle>(oracle: O, line: Seq<TokenView>, st: StateView)
    requires
        line.len() > 0,
        forall|k: int| 0 <= k < line.len() - 1 ==> (#[trigger] line[k]).kind != SyntaxKind::NEWLINE,
    ensures
        run(oracle, line, 0, st) == step(oracle, st, line),
{
    lemma_line_end(line, 0);
    lemma_line_end_whole(line, 0);
    assert(line.subrange(0, line.len() as int) =~= line);
    reveal_with_fuel(run, 2);
}

proof fn lemma_line_end_whole(line: Seq<TokenView>, i: int)
    requires
        0 <= i < line.len(),
        forall|k: int| 0 <= k < line.len() - 1 ==> (#[trigger] line[k]).kind != SyntaxKind::NEWLINE,
    ensures
        line_end(line, i) == line.len(),
    decreases line.len() - i,
{
    reveal_with_fuel(line_end, 2);
    if i + 1 < line.len() {
        lemma_line_end_whole(line, i + 1);
    }
}

/// Every error covers a non-empty range of the text.
spec fn errors_inside(errors: Seq<ErrorView>, limit: int) -> bool {
    forall|i: int| #![trigger errors[i]]
        0 <= i < errors.len() ==> 0 <= errors[i].start < errors[i].end <= limit
}

spec fn tidy(st: StateView) -> bool {
    &&& 0 <= st.pos
    &&& errors_inside(st.errors, st.pos)
    &&& forall|i: int| #![trigger st.stack[i]]
        0 <= i < st.stack.len() ==> 0 <= st.stack[i].start < st.pos
}

proof fn lemma_step_tidy<O: OpenerOracle>(oracle: O, st: StateView, line: Seq<TokenView>)
    requires
        tidy(st),
        line_len(line) > 0,
    ensures
        tidy(step(oracle, st, line)),
{
    let next = step(oracle, st, line);
    assert forall|i: int| #![trigger next.stack[i]] 0 <= i < next.stack.len() implies 0
        <= next.stack[i].start < next.pos by {
        if i < st.stack.len() {
            assert(next.stack[i].start == st.stack[i].start);
        }
    }
    assert forall|i: int| #![trigger next.errors[i]] 0 <= i < next.errors.len() implies 0
        <= next.errors[i].start < next.errors[i].end <= next.pos by {
        if i < st.errors.len() {
            assert(next.errors[i] == st.errors[i]);
        }
    }
}

proof fn lemma_run_tidy<O: OpenerOracle>(oracle: O, tokens: Seq<TokenView>, i: int, st: StateView)
    requires
        tidy(st),
        nonempty_tokens(tokens),
        0 <= i <= tokens.len(),
    ensures
        tidy(run(oracle, tokens, i, st)),
    decreases tokens.len() - i,
{
    if i < tokens.len() {
        let end = line_end(tokens, i);
        lemma_line_end(tokens, i);
        let line = tokens.subrange(i, end);
        lemma_offset_end(line);
        lemma_offset_sub(tokens, i, end, end);
        lemma_offset_strict(tokens, i, end);
        lemma_step_tidy(oracle, st, line);
        lemma_run_tidy(oracle, tokens, end, step(oracle, st, line));
    }
}

proof fn lemma_close_all_tidy(st: StateView)
    requires
        tidy(st),
    ensures
        errors_inside(close_all(st).errors, st.pos),
        close_all(st).pos == st.pos,
    decreases st.stack.len(),
{
    if st.stack.len() > 0 {
        let error = ErrorView {
            kind: SyntaxErrorKind::UnterminatedBlock,
            start: st.stack.last().start,
            end: st.pos,
        };
        let reported = StateView { errors: st.errors.push(error), ..st };
        let next = close_top(reported, st.pos);
        assert(st.stack[st.stack.len() - 1].start < st.pos);
        assert forall|i: int| #![trigger next.stack[i]] 0 <= i < next.stack.len() implies 0
            <= next.stack[i].start < next.pos by {
            assert(next.stack[i].start == st.stack[i].start);
        }
        lemma_close_all_tidy(next);
    }
}

/// A run ends at the end of its tokens.
pub proof fn lemma_run_pos<O: OpenerOracle>(oracle: O, tokens: Seq<TokenView>, i: int, st: StateView)
    requires
        0 <= i <= tokens.len(),
        st.pos == token_offset(tokens, i),
    ensures
        run(oracle, tokens, i, st).pos == line_len(tokens),
    decreases tokens.len() - i,
{
    lemma_offset_end(tokens);
    if i < tokens.len() {
        let end = line_end(tokens, i);
        lemma_line_end(tokens, i);
        let line = tokens.subrange(i, end);
        lemma_offset_end(line);
        lemma_offset_sub(tokens, i, end, end);
        lemma_run_pos(oracle, tokens, end, step(oracle, st, line));
    }
}

/// The parse records the length of the text, and every error covers a
/// non-empty range inside it.
pub proof fn parse_errors_are_inside<O: OpenerOracle>(oracle: O, text: Seq<char>)
    ensures
        parse_text(oracle, text).len == blen(text),
        forall|i: int| #![trigger parse_text(oracle, text).errors[i]]
            0 <= i < parse_text(oracle, text).errors.len() ==> 0 <= parse_text(
                oracle,
                text,
            ).errors[i].start < parse_text(oracle, text).errors[i].end <= blen(text),
{
    reveal(parse_text);
    let toks = lex(text);
    lex_is_lossless(text);
    lemma_nonempty(text);
    lemma_offset_end(toks);
    lemma_run_pos(oracle, toks, 0, initial_state());
    lemma_run_tidy(oracle, toks, 0, initial_state());
    lemma_close_all_tidy(run(oracle, toks, 0, initial_state()));
}

/// A lexed text has no empty token.
pub proof fn lemma_nonempty(text: Seq<char>)
    ensures
        nonempty_tokens(lex(text)),
{
    assert forall|k: int| 0 <= k < lex(text).len() implies (#[trigger] lex(text)[k]).text.len()
        > 0 by {
        lex_token_shape(text, k);
    }
}

/// An open scope at the end of a text is reported.
proof fn lemma_closed_iff<O: OpenerOracle>(oracle: O, text: Seq<char>)
    ensures
        closed(oracle, text) == !has_unterminated(parse_text(oracle, text).errors),
{
    reveal(parse_text);
    let st = run(oracle, lex(text), 0, initial_state());
    lemma_run_no_unterminated(oracle, lex(text), 0, initial_state());
    lemma_close_all_unterminated(st);
}

/// Some error reports an unterminated scope.
pub open spec fn has_unterminated(errors: Seq<ErrorView>) -> bool {
    exists|i: int|
        0 <= i < errors.len() && (#[trigger] errors[i]).kind == SyntaxErrorKind::UnterminatedBlock
}

proof fn lemma_run_no_unterminated<O: OpenerOracle>(
    oracle: O,
    tokens: Seq<TokenView>,
    i: int,
    st: StateView,
)
    requires
        !has_unterminated(st.errors),
    ensures
        !has_unterminated(run(oracle, tokens, i, st).errors),
    decreases tokens.len() - i,
{
    if 0 <= i < tokens.len() {
        let end = line_end(tokens, i);
        lemma_line_end(tokens, i);
        let next = step(oracle, st, tokens.subrange(i, end));
        if has_unterminated(next.errors) {
            let k = choose|k: int|
                0 <= k < next.errors.len() && (#[trigger] next.errors[k]).kind
                    == SyntaxErrorKind::UnterminatedBlock;
            assert(k < st.errors.len() && st.errors[k] == next.errors[k]);
        }
        lemma_run_no_unterminated(oracle, tokens, end, next);
    }
}

proof fn lemma_close_all_unterminated(st: StateView)
    ensures
        st.stack.len() > 0 ==> has_unterminated(close_all(st).errors),
        st.stack.len() == 0 ==> close_all(st).errors == st.errors,
        close_all(st).errors.len() >= st.errors.len(),
        close_all(st).errors.take(st.errors.len() as int) == st.errors,
    decreases st.stack.len(),
{
    if st.stack.len() > 0 {
        let error = ErrorView {
            kind: SyntaxErrorKind::UnterminatedBlock,
            start: st.stack.last().start,
            end: st.pos,
        };
        let reported = StateView { errors: st.errors.push(error), ..st };
        let next = close_top(reported, st.pos);
        lemma_close_all_unterminated(next);
        let all = close_all(st).errors;
        assert(all.take(reported.errors.len() as int)[st.errors.len() as int] == error);
        assert(all[st.errors.len() as int].kind == SyntaxErrorKind::UnterminatedBlock);
        assert(all.take(st.errors.len() as int) =~= all.take(
            reported.errors.len() as int,
        ).take(st.errors.len() as int));
        assert(reported.errors.take(st.errors.len() as int) =~= st.errors);
    } else {
        assert(st.errors.take(st.errors.len() as int) =~= st.errors);
    }
}

/// Lexing a prefix of whole lines gives the tokens of that prefix.
proof fn lemma_lex_prefix(text: Seq<char>, t: int)
    requires
        0 <= t <= lex(text).len(),
        whole_lines(token_text(lex(text).take(t))),
    ensures
        lex(token_text(lex(text).take(t))) == lex(text).take(t),
        token_text(lex(text).take(t)).len() <= text.len(),
        text.take(token_text(lex(text).take(t)).len() as int) == token_text(lex(text).take(t)),
{
    let toks = lex(text);
    let first = token_text(toks.take(t));
    let rest = token_text(toks.skip(t));
    lex_is_lossless(text);
    assert(toks.take(t) + toks.skip(t) =~= toks);
    lemma_token_text_concat(toks.take(t), toks.skip(t));
    assert(text.take(first.len() as int) =~= first);
    lex_is_line_local(first, rest);
    let n = lex(first).len() as int;
    assert(toks =~= lex(first) + lex(rest));
    assert(toks.take(n) =~= lex(first));
    lex_is_lossless(first);
    lemma_nonempty(text);
    if n < t {
        lemma_offset_strict(toks, n, t);
    }
    if t < n {
        lemma_offset_strict(toks, t, n);
    }
}

/// A top-level element whose offset is at the start of a line cuts the text
/// into two independently parsed parts.
proof fn lemma_cut<O: OpenerOracle>(oracle: O, text: Seq<char>, k: int) -> (c: int)
    requires
        0 <= k < parse_text(oracle, text).children.len(),
        ({
            let at = parse_text(oracle, text).children[k].offset;
            k == 0 || (0 < at <= blen(text) && vstd::utf8::encode_utf8(text)[at - 1] == 10)
        }),
    ensures
        0 <= c <= text.len(),
        crate::text::byte_at(text, c) == parse_text(oracle, text).children[k].offset,
        whole_lines(text.take(c)),
        closed(oracle, text.take(c)),
        parse_text(oracle, text.take(c)).children.len() == k,
{
    reveal(parse_text);
    let toks = lex(text);
    lemma_nonempty(text);
    lex_is_lossless(text);
    let first = initial_state();
    lemma_offset_end(toks);
    assert(toks.take(0) =~= Seq::<TokenView>::empty());
    let finish = run(oracle, toks, 0, first);
    let last = close_all(finish);
    lemma_close_all_extends(finish);
    lemma_run_extends(oracle, toks, 0, first);
    lemma_extends_trans(first, finish, last);
    let at = last.done[k].offset;
    if k == 0 {
        assert(at == 0);
        assert(text.take(0) =~= Seq::<char>::empty());
        lemma_empty_parse(oracle);
        return 0;
    }
    let u = lemma_child_boundary(oracle, toks, 0, first, k);
    // The character before the boundary is a newline, so the token is too.
    let head = token_text(toks.take(u));
    let c = head.len() as int;
    assert(toks.take(u) + toks.skip(u) =~= toks);
    lemma_token_text_concat(toks.take(u), toks.skip(u));
    assert(text.take(c) =~= head);
    crate::text::lemma_boundary(text, c);
    if u == 0 {
        assert(head =~= Seq::<char>::empty());
    }
    assert(vstd::utf8::encode_utf8(head) == vstd::utf8::encode_utf8(text).subrange(0, at));
    if head.len() == 0 {
        assert(blen(head) == 0);
    }
    crate::text::lemma_last_byte_newline(head);
    assert(head.last() == '\n');
    lex_token_shape(text, u - 1);
    assert(toks.take(u) =~= toks.take(u - 1) + seq![toks[u - 1]]);
    lemma_token_text_concat(toks.take(u - 1), seq![toks[u - 1]]);
    lemma_token_text_one(toks[u - 1]);
    let tail = toks[u - 1].text;
    assert(head.last() == tail[tail.len() - 1]);
    let t = lemma_find_cut(oracle, toks, 0, first, k, u);
    lemma_lex_prefix(text, u);
    c
}

proof fn lemma_empty_parse<O: OpenerOracle>(oracle: O)
    ensures
        closed(oracle, Seq::<char>::empty()),
        parse_text(oracle, Seq::<char>::empty()).children.len() == 0,
{
    reveal(parse_text);
    assert(lex(Seq::<char>::empty()) =~= Seq::<TokenView>::empty());
}

/// Every top-level element starts at a token boundary.
proof fn lemma_child_boundary<O: OpenerOracle>(
    oracle: O,
    tokens: Seq<TokenView>,
    i: int,
    st: StateView,
    k: int,
) -> (u: int)
    requires
        0 <= i <= tokens.len(),
        st.pos == token_offset(tokens, i),
        st.done.len() <= k < close_all(run(oracle, tokens, i, st)).done.len(),
        st.stack.len() > 0 ==> exists|u: int|
            0 <= u <= i && base_of(st.stack) == #[trigger] token_offset(tokens, u),
    ensures
        0 <= u <= tokens.len(),
        close_all(run(oracle, tokens, i, st)).done[k].offset == token_offset(tokens, u),
    decreases tokens.len() - i,
{
    let finish = run(oracle, tokens, i, st);
    let last = close_all(finish);
    lemma_close_all_extends(finish);
    lemma_run_extends(oracle, tokens, i, st);
    lemma_extends_trans(st, finish, last);
    if k == st.done.len() {
        if st.stack.len() > 0 {
            return choose|u: int|
                0 <= u <= i && base_of(st.stack) == #[trigger] token_offset(tokens, u);
        }
        return i;
    }
    if i == tokens.len() {
        assert(false);
    }
    let end = line_end(tokens, i);
    lemma_line_end(tokens, i);
    let line = tokens.subrange(i, end);
    let next = step(oracle, st, line);
    lemma_step_extends(oracle, st, line);
    lemma_offset_sub(tokens, i, end, end);
    lemma_offset_end(line);
    lemma_run_extends(oracle, tokens, end, next);
    lemma_extends_trans(next, finish, last);
    if next.done.len() > k {
        let j = k - st.done.len();
        assert(next.done[st.done.len() + j].offset == st.pos + token_offset(line, j));
        assert(last.done.take(next.done.len() as int)[k] == next.done[k]);
        lemma_offset_sub(tokens, i, end, i + j);
        return i + j;
    }
    if next.stack.len() > 0 {
        if st.stack.len() > 0 {
            assert(base_of(next.stack) == base_of(st.stack));
        } else {
            assert(base_of(next.stack) == token_offset(tokens, i));
        }
        let u = if st.stack.len() > 0 {
            choose|u: int| 0 <= u <= i && base_of(st.stack) == #[trigger] token_offset(tokens, u)
        } else {
            i
        };
        assert(0 <= u <= end && base_of(next.stack) == token_offset(tokens, u));
    }
    lemma_child_boundary(oracle, tokens, end, next, k)
}

// ---------------------------------------------------------------------------
// Top-level elements are in order
// ---------------------------------------------------------------------------
spec fn in_order(done: Seq<ChildView>, limit: int) -> bool {
    &&& forall|i: int| #![trigger done[i]] 0 <= i < done.len() ==> 0 <= done[i].offset < limit
    &&& forall|i: int, j: int| #![trigger done[i], done[j]]
        0 <= i < j < done.len() ==> done[i].offset < done[j].offset
}

spec fn neat(st: StateView) -> bool {
    &&& 0 <= st.pos
    &&& in_order(st.done, pending(st))
    &&& st.stack.len() > 0 ==> 0 <= base_of(st.stack) < st.pos
}

proof fn lemma_step_neat<O: OpenerOracle>(oracle: O, st: StateView, line: Seq<TokenView>)
    requires
        neat(st),
        line.len() > 0,
        nonempty_tokens(line),
    ensures
        neat(step(oracle, st, line)),
{
    let next = step(oracle, st, line);
    lemma_offset_end(line);
    lemma_offset_strict(line, 0, line.len() as int);
    if st.stack.len() > 0 {
        let elements = leaves(line, st.pos - base_of(st.stack));
        let mid = StateView { stack: add_children(st.stack, elements), ..st };
        assert(mid.stack[0].start == st.stack[0].start);
        if mid.stack.len() > 1 {
            let inner = mid.stack.drop_last();
            assert(add_children(inner, seq![arbitrary()])[0].start == inner[0].start);
        }
    }
    assert forall|i: int| #![trigger next.done[i]] 0 <= i < next.done.len() implies 0
        <= next.done[i].offset < pending(next) by {
        if i < st.done.len() {
            assert(next.done[i] == st.done[i]);
        } else if line_blank(line) {
            let k = i - st.done.len();
            if k > 0 {
                lemma_offset_strict(line, 0, k);
            }
            lemma_offset_strict(line, k, line.len() as int);
        }
    }
    assert forall|i: int, j: int| #![trigger next.done[i], next.done[j]]
        0 <= i < j < next.done.len() implies next.done[i].offset < next.done[j].offset by {
        if j < st.done.len() {
            assert(next.done[i] == st.done[i] && next.done[j] == st.done[j]);
        } else if i < st.done.len() {
            assert(next.done[i] == st.done[i]);
            if line_blank(line) {
                let k = j - st.done.len();
                if k > 0 {
                    lemma_offset_strict(line, 0, k);
                }
            }
        } else {
            lemma_offset_strict(line, i - st.done.len(), j - st.done.len());
        }
    }
}

proof fn lemma_run_neat<O: OpenerOracle>(oracle: O, tokens: Seq<TokenView>, i: int, st: StateView)
    requires
        neat(st),
        nonempty_tokens(tokens),
        0 <= i <= tokens.len(),
    ensures
        neat(run(oracle, tokens, i, st)),
    decreases tokens.len() - i,
{
    if i < tokens.len() {
        let end = line_end(tokens, i);
        lemma_line_end(tokens, i);
        let line = tokens.subrange(i, end);
        lemma_step_neat(oracle, st, line);
        lemma_run_neat(oracle, tokens, end, step(oracle, st, line));
    }
}

proof fn lemma_close_all_neat(st: StateView)
    requires
        neat(st),
    ensures
        in_order(close_all(st).done, st.pos),
    decreases st.stack.len(),
{
    if st.stack.len() > 0 {
        let error = ErrorView {
            kind: SyntaxErrorKind::UnterminatedBlock,
            start: st.stack.last().start,
            end: st.pos,
        };
        let reported = StateView { errors: st.errors.push(error), ..st };
        let next = close_top(reported, st.pos);
        if st.stack.len() > 1 {
            assert(next.stack[0].start == st.stack[0].start);
        } else {
            assert forall|i: int, j: int| #![trigger next.done[i], next.done[j]]
                0 <= i < j < next.done.len() implies next.done[i].offset < next.done[j].offset by {
                assert(next.done[i] == st.done[i]);
            }
        }
        lemma_close_all_neat(next);
    }
}

/// Top-level elements are in document order, each starting after the one
/// before it and inside the text.
pub proof fn parse_children_are_in_order<O: OpenerOracle>(oracle: O, text: Seq<char>)
    ensures
        ({
            let children = parse_text(oracle, text).children;
            &&& forall|i: int| #![trigger children[i]]
                0 <= i < children.len() ==> 0 <= children[i].offset < blen(text)
            &&& forall|i: int, j: int| #![trigger children[i], children[j]]
                0 <= i < j < children.len() ==> children[i].offset < children[j].offset
        }),
{
    reveal(parse_text);
    let toks = lex(text);
    lex_is_lossless(text);
    lemma_nonempty(text);
    lemma_offset_end(toks);
    lemma_run_pos(oracle, toks, 0, initial_state());
    lemma_run_neat(oracle, toks, 0, initial_state());
    lemma_close_all_neat(run(oracle, toks, 0, initial_state()));
}

// ---------------------------------------------------------------------------
// The edited region
// ---------------------------------------------------------------------------
/// A single text edit: bytes `[start, old_end)` of the old text were replaced
/// by `new_len` bytes (occupying `[start, start + new_len)` of the new text).
#[derive(Debug, Clone, Copy, PartialEq, Eq, Structural)]
pub struct Edit {
    pub start: usize,
    pub old_end: usize,
    pub new_len: usize,
}

/// How [`reparse`] produced its result.
#[derive(Debug, Clone, Copy, PartialEq, Eq, Structural)]
pub enum Strategy {
    /// The edited region was reparsed and spliced into the old tree.
    Spliced,
    /// The whole document was reparsed from scratch.
    Full,
}

/// The lengths of the texts agree with the edit.
pub open spec fn edit_fits(old_text: Seq<u8>, new_text: Seq<u8>, edit: Edit) -> bool {
    &&& edit.start <= edit.old_end <= old_text.len()
    &&& old_text.len() - (edit.old_end - edit.start) + edit.new_len == new_text.len()
}

/// `new_text` is `old_text` with the edit applied.
pub open spec fn edit_applies(old_text: Seq<u8>, new_text: Seq<u8>, edit: Edit) -> bool {
    &&& edit_fits(old_text, new_text, edit)
    &&& new_text.subrange(0, edit.start as int) == old_text.subrange(0, edit.start as int)
    &&& new_text.subrange(edit.start + edit.new_len, new_text.len() as int) == old_text.subrange(
        edit.old_end as int,
        old_text.len() as int,
    )
}

/// The end of a top-level element.
pub open spec fn child_end(p: ParseView, i: int) -> int {
    if i + 1 < p.children.len() {
        p.children[i + 1].offset
    } else {
        p.len
    }
}

/// The first element from `i` on that ends at or after `start`.
pub open spec fn first_touching(p: ParseView, start: int, i: int) -> int
    decreases p.children.len() - i,
{
    if 0 <= i < p.children.len() && child_end(p, i) < start {
        first_touching(p, start, i + 1)
    } else {
        i
    }
}

/// The last element up to `i` that starts at or before `old_end`.
pub open spec fn last_touching(p: ParseView, old_end: int, i: int) -> int
    decreases i + 1,
{
    if 0 <= i && p.children[i].offset > old_end {
        last_touching(p, old_end, i - 1)
    } else {
        i
    }
}

/// The last element up to `lo` that starts a line.
pub open spec fn line_start_child(old_text: Seq<u8>, p: ParseView, lo: int) -> int
    decreases lo,
{
    if lo > 0 && old_text[p.children[lo].offset - 1] != 10 {
        line_start_child(old_text, p, lo - 1)
    } else {
        lo
    }
}

/// The first element from `hi` on that ends a line or the document.
pub open spec fn line_stop_child(old_text: Seq<u8>, p: ParseView, hi: int) -> int
    decreases p.children.len() - hi,
{
    if hi + 1 < p.children.len() && old_text[child_end(p, hi) - 1] != 10 {
        line_stop_child(old_text, p, hi + 1)
    } else {
        hi
    }
}

/// The elements `[lo, hi]` that an edit touches, widened by one sibling each
/// side and then to line boundaries; `None` if the edit cannot be confined to
/// whole elements and whole lines.
pub open spec fn edited_children(
    old_text: Seq<u8>,
    new_text: Seq<u8>,
    p: ParseView,
    edit: Edit,
) -> Option<(int, int)> {
    let n = p.children.len() as int;
    let first = first_touching(p, edit.start as int, 0);
    let last = last_touching(p, edit.old_end as int, n - 1);
    let lo = line_start_child(
        old_text,
        p,
        if first > 0 {
            first - 1
        } else {
            0
        },
    );
    let hi = line_stop_child(
        old_text,
        p,
        if last + 1 < n {
            last + 1
        } else {
            n - 1
        },
    );
    let prefix = p.children[lo].offset;
    let suffix = old_text.len() - child_end(p, hi);
    let stop = new_text.len() - suffix;
    if !edit_fits(old_text, new_text, edit) || n == 0 || first >= n || last < 0 || first > last {
        None
    } else if edit.start < prefix || edit.old_end > child_end(p, hi) || stop < prefix {
        None
    } else if !vstd::utf8::is_char_boundary(new_text, prefix) || !vstd::utf8::is_char_boundary(
        new_text,
        stop,
    ) {
        None
    } else if suffix > 0 && prefix < stop && new_text[stop - 1] != 10 {
        None
    } else {
        Some((lo, hi))
    }
}

/// The text between the elements before `lo` and those after `hi`.
pub open spec fn edited_text(
    old_text: Seq<u8>,
    new_text: Seq<u8>,
    p: ParseView,
    lo: int,
    hi: int,
) -> Seq<char> {
    vstd::utf8::decode_utf8(
        new_text.subrange(
            p.children[lo].offset,
            new_text.len() - (old_text.len() - child_end(p, hi)),
        ),
    )
}

/// Whether the edit can be spliced into the old parse: it is confined to whole
/// elements, and the reparsed region does not leave a scope open that would
/// swallow the text after it.
pub open spec fn splices<O: OpenerOracle>(
    oracle: O,
    old_text: Seq<u8>,
    new_text: Seq<u8>,
    p: ParseView,
    edit: Edit,
) -> bool {
    match edited_children(old_text, new_text, p, edit) {
        Some((lo, hi)) => old_text.len() == child_end(p, hi) || !has_unterminated(
            parse_text(oracle, edited_text(old_text, new_text, p, lo, hi)).errors,
        ),
        None => false,
    }
}

proof fn lemma_touching(p: ParseView, start: int, old_end: int, i: int, j: int)
    requires
        0 <= i <= p.children.len(),
        -1 <= j < p.children.len(),
    ensures
        i <= first_touching(p, start, i) <= p.children.len(),
        -1 <= last_touching(p, old_end, j) <= j,
    decreases p.children.len() - i + j + 1,
{
    if i < p.children.len() && child_end(p, i) < start {
        lemma_touching(p, start, old_end, i + 1, j);
    } else if j >= 0 && p.children[j].offset > old_end {
        lemma_touching(p, start, old_end, i, j - 1);
    }
}

/// `a` errors end by byte `at`; the others start at or after it.
spec fn errors_cut(errors: Seq<ErrorView>, a: int, at: int) -> bool {
    &&& 0 <= a <= errors.len()
    &&& forall|i: int| #![trigger errors[i]]
        0 <= i < a ==> errors[i].start < errors[i].end <= at
    &&& forall|i: int| #![trigger errors[i]]
        a <= i < errors.len() ==> at <= errors[i].start < errors[i].end
}

/// A text and the two parts that a line-starting top-level element cuts it into.
#[verifier::opaque]
spec fn cut_at<O: OpenerOracle>(oracle: O, text: Seq<char>, k: int, c: int) -> bool {
    let p = parse_text(oracle, text);
    let first = parse_text(oracle, text.take(c));
    let rest = parse_text(oracle, text.skip(c));
    let at = if k < p.children.len() {
        p.children[k].offset
    } else {
        p.len
    };
    &&& 0 <= c <= text.len()
    &&& vstd::utf8::encode_utf8(text.take(c)) == vstd::utf8::encode_utf8(text).subrange(0, at)
    &&& vstd::utf8::encode_utf8(text.skip(c)) == vstd::utf8::encode_utf8(text).subrange(
        at,
        blen(text) as int,
    )
    &&& k < p.children.len() ==> whole_lines(text.take(c)) && closed(oracle, text.take(c))
    &&& first.len == at
    &&& p.children.take(k) == first.children
    &&& p.children.skip(k) == shift_children(rest.children, at)
    &&& p.errors.take(first.errors.len() as int) == first.errors
    &&& p.errors.skip(first.errors.len() as int) == shift_errors(rest.errors, at)
    &&& errors_cut(p.errors, first.errors.len() as int, at)
}

proof fn lemma_cut_at<O: OpenerOracle>(oracle: O, text: Seq<char>, k: int) -> (c: int)
    requires
        0 <= k < parse_text(oracle, text).children.len(),
        k == 0 || vstd::utf8::encode_utf8(text)[parse_text(oracle, text).children[k].offset - 1]
            == 10,
    ensures
        cut_at(oracle, text, k, c),
{
    reveal(cut_at);
    let p = parse_text(oracle, text);
    parse_children_are_in_order(oracle, text);
    parse_errors_are_inside(oracle, text);
    if k > 0 {
        assert(p.children[0].offset < p.children[k].offset);
    }
    let at = p.children[k].offset;
    let c = lemma_cut(oracle, text, k);
    let (head, tail) = (text.take(c), text.skip(c));
    assert(text =~= head + tail);
    parse_is_compositional(oracle, head, tail);
    parse_errors_are_inside(oracle, head);
    parse_errors_are_inside(oracle, tail);
    crate::text::lemma_boundary(text, c);
    let first = parse_text(oracle, head);
    let rest = parse_text(oracle, tail);
    let a = first.errors.len() as int;
    assert(p.children.take(k) =~= first.children);
    assert(p.children.skip(k) =~= shift_children(rest.children, at));
    assert(p.errors.take(a) =~= first.errors);
    assert(p.errors.skip(a) =~= shift_errors(rest.errors, at));
    assert forall|i: int| #![trigger p.errors[i]] 0 <= i < a implies p.errors[i].start
        < p.errors[i].end <= at by {
        assert(p.errors[i] == first.errors[i]);
    }
    assert forall|i: int| #![trigger p.errors[i]] a <= i < p.errors.len() implies at
        <= p.errors[i].start < p.errors[i].end by {
        assert(p.errors[i] == shift_errors(rest.errors, at)[i - a]);
        assert(0 <= rest.errors[i - a].start);
    }
    c
}

proof fn lemma_cut_at_end<O: OpenerOracle>(oracle: O, text: Seq<char>)
    ensures
        cut_at(
            oracle,
            text,
            parse_text(oracle, text).children.len() as int,
            text.len() as int,
        ),
{
    reveal(cut_at);
    let p = parse_text(oracle, text);
    parse_errors_are_inside(oracle, text);
    let c = text.len() as int;
    assert(text.take(c) =~= text);
    assert(text.skip(c) =~= Seq::<char>::empty());
    crate::text::lemma_boundary(text, c);
    crate::text::lemma_byte_at_split(text, 0, c);
    lemma_empty_parse(oracle);
    lemma_empty_errors(oracle);
    let rest = parse_text(oracle, text.skip(c));
    assert(p.children.take(p.children.len() as int) =~= p.children);
    assert(p.children.skip(p.children.len() as int) =~= shift_children(rest.children, p.len));
    assert(p.errors.take(p.errors.len() as int) =~= p.errors);
    assert(p.errors.skip(p.errors.len() as int) =~= shift_errors(rest.errors, p.len));
}

/// The parses of the three parts of the new text, put together.
proof fn lemma_splice<O: OpenerOracle>(
    oracle: O,
    old_text: Seq<char>,
    new_text: Seq<char>,
    region: Seq<char>,
    lo: int,
    hi: int,
    c1: int,
    c2: int,
)
    requires
        0 <= lo <= hi < parse_text(oracle, old_text).children.len(),
        cut_at(oracle, old_text, lo, c1),
        cut_at(oracle, old_text, hi + 1, c2),
        new_text == old_text.take(c1) + (region + old_text.skip(c2)),
        hi + 1 < parse_text(oracle, old_text).children.len() ==> whole_lines(region) && closed(
            oracle,
            region,
        ),
    ensures
        ({
            let p = parse_text(oracle, old_text);
            let fragment = parse_text(oracle, region);
            let prefix = p.children[lo].offset;
            let delta = blen(new_text) - blen(old_text);
            let got = parse_text(oracle, new_text);
            let a = parse_text(oracle, old_text.take(c1)).errors.len() as int;
            let b = parse_text(oracle, old_text.take(c2)).errors.len() as int;
            &&& got.len == blen(new_text)
            &&& got.children == p.children.take(lo) + shift_children(fragment.children, prefix)
                + shift_children(p.children.skip(hi + 1), delta)
            &&& got.errors == p.errors.take(a) + shift_errors(fragment.errors, prefix)
                + shift_errors(p.errors.skip(b), delta)
        }),
{
    reveal(cut_at);
    let p = parse_text(oracle, old_text);
    let head = old_text.take(c1);
    let tail = old_text.skip(c2);
    let pf = parse_text(oracle, region);
    let pt = parse_text(oracle, tail);
    let prefix = p.children[lo].offset;
    let delta = blen(new_text) - blen(old_text);
    let got = parse_text(oracle, new_text);
    let a = parse_text(oracle, head).errors.len() as int;
    let b = parse_text(oracle, old_text.take(c2)).errors.len() as int;
    parse_errors_are_inside(oracle, old_text);
    parse_errors_are_inside(oracle, new_text);
    parse_errors_are_inside(oracle, region);
    parse_errors_are_inside(oracle, tail);
    parse_errors_are_inside(oracle, head);
    parse_errors_are_inside(oracle, old_text.take(c2));
    lemma_cut_lengths(oracle, old_text, lo, c1);
    lemma_cut_lengths(oracle, old_text, hi + 1, c2);
    lemma_encode_concat(region, tail);
    lemma_encode_concat(head, region + tail);
    assert(whole_lines(head) && closed(oracle, head));
    parse_is_compositional(oracle, head, region + tail);
    let cut = if hi + 1 < p.children.len() {
        p.children[hi + 1].offset
    } else {
        p.len
    };
    if hi + 1 < p.children.len() {
        parse_is_compositional(oracle, region, tail);
    } else {
        assert(tail =~= Seq::<char>::empty()) by {
            crate::text::lemma_blen_bound(tail);
        }
        lemma_empty_parse(oracle);
        lemma_empty_errors(oracle);
        assert(region + tail =~= region);
        assert(joined(pf, pt).children =~= pf.children);
        assert(joined(pf, pt).errors =~= pf.errors);
    }
    let both = parse_text(oracle, region + tail);
    assert(both.children == joined(pf, pt).children);
    assert(both.errors == joined(pf, pt).errors);
    lemma_join_children(
        p.children.take(lo),
        pf.children,
        pt.children,
        prefix,
        pf.len,
        cut,
        delta,
    );
    lemma_join_errors(p.errors.take(a), pf.errors, pt.errors, prefix, pf.len, cut, delta);
}

proof fn lemma_join_children(
    h: Seq<ChildView>,
    f: Seq<ChildView>,
    t: Seq<ChildView>,
    prefix: int,
    len: int,
    cut: int,
    delta: int,
)
    requires
        prefix + len == cut + delta,
    ensures
        h + shift_children(f + shift_children(t, len), prefix) == h + shift_children(f, prefix)
            + shift_children(shift_children(t, cut), delta),
{
    assert(h + shift_children(f + shift_children(t, len), prefix) =~= h + shift_children(f, prefix)
        + shift_children(shift_children(t, cut), delta));
}

proof fn lemma_join_errors(
    h: Seq<ErrorView>,
    f: Seq<ErrorView>,
    t: Seq<ErrorView>,
    prefix: int,
    len: int,
    cut: int,
    delta: int,
)
    requires
        prefix + len == cut + delta,
    ensures
        h + shift_errors(f + shift_errors(t, len), prefix) == h + shift_errors(f, prefix)
            + shift_errors(shift_errors(t, cut), delta),
{
    assert(h + shift_errors(f + shift_errors(t, len), prefix) =~= h + shift_errors(f, prefix)
        + shift_errors(shift_errors(t, cut), delta));
}

proof fn lemma_empty_errors<O: OpenerOracle>(oracle: O)
    ensures
        parse_text(oracle, Seq::<char>::empty()).errors.len() == 0,
{
    reveal(parse_text);
    assert(lex(Seq::<char>::empty()) =~= Seq::<TokenView>::empty());
}

/// The byte lengths of the two parts of a cut text.
proof fn lemma_cut_lengths<O: OpenerOracle>(oracle: O, text: Seq<char>, k: int, c: int)
    requires
        cut_at(oracle, text, k, c),
    ensures
        0 <= c <= text.len(),
        blen(text) == blen(text.take(c)) + blen(text.skip(c)),
        blen(text.take(c)) == parse_text(oracle, text.take(c)).len,
        ({
            let p = parse_text(oracle, text);
            let at = if k < p.children.len() {
                p.children[k].offset
            } else {
                p.len
            };
            let a = parse_text(oracle, text.take(c)).errors.len() as int;
            &&& blen(text.take(c)) == at
            &&& errors_cut(p.errors, a, at)
            &&& vstd::utf8::encode_utf8(text.take(c)) == vstd::utf8::encode_utf8(text).subrange(
                0,
                at,
            )
            &&& vstd::utf8::encode_utf8(text.skip(c)) == vstd::utf8::encode_utf8(text).subrange(
                at,
                blen(text) as int,
            )
        }),
{
    reveal(cut_at);
    parse_errors_are_inside(oracle, text.take(c));
    assert(text =~= text.take(c) + text.skip(c));
    lemma_encode_concat(text.take(c), text.skip(c));
}

/// The new text is the kept head, the edited region and the kept tail.
proof fn lemma_new_text(
    new_text: Seq<char>,
    head: Seq<char>,
    region: Seq<char>,
    tail: Seq<char>,
    old_bytes: Seq<u8>,
    edit: Edit,
    prefix: int,
    cut: int,
)
    requires
        0 <= prefix <= edit.start,
        edit.old_end <= cut <= old_bytes.len(),
        edit_applies(old_bytes, vstd::utf8::encode_utf8(new_text), edit),
        prefix <= blen(new_text) - (old_bytes.len() - cut),
        vstd::utf8::encode_utf8(head) == old_bytes.subrange(0, prefix),
        vstd::utf8::encode_utf8(tail) == old_bytes.subrange(cut, old_bytes.len() as int),
        vstd::utf8::encode_utf8(region) == vstd::utf8::encode_utf8(new_text).subrange(
            prefix,
            blen(new_text) - (old_bytes.len() - cut),
        ),
    ensures
        new_text == head + (region + tail),
{
    let new_bytes = vstd::utf8::encode_utf8(new_text);
    let suffix = old_bytes.len() - cut;
    let stop = new_bytes.len() - suffix;
    let (n, m) = (new_bytes.len() as int, old_bytes.len() as int);
    let start = edit.start as int;
    assert(new_bytes.subrange(0, prefix) =~= old_bytes.subrange(0, prefix)) by {
        assert forall|i: int| 0 <= i < prefix implies new_bytes[i] == old_bytes[i] by {
            assert(new_bytes.subrange(0, start)[i] == old_bytes.subrange(0, start)[i]);
        }
    }
    assert(new_bytes.subrange(stop, n) =~= old_bytes.subrange(cut, m)) by {
        let from = start + edit.new_len;
        let (kept, had) = (new_bytes.subrange(stop, n), old_bytes.subrange(cut, m));
        assert forall|i: int| 0 <= i < suffix implies kept[i] == had[i] by {
            let j = stop + i - from;
            assert(new_bytes.subrange(from, n)[j] == old_bytes.subrange(edit.old_end as int, m)[j]);
        }
    }
    lemma_encode_concat(region, tail);
    lemma_encode_concat(head, region + tail);
    assert(new_bytes =~= vstd::utf8::encode_utf8(head + (region + tail))) by {
        assert(new_bytes =~= new_bytes.subrange(0, prefix) + (new_bytes.subrange(prefix, stop)
            + new_bytes.subrange(stop, n)));
    }
    crate::text::lemma_encode_injective(new_text, head + (region + tail));
}

// ---------------------------------------------------------------------------
// Reparsing
// ---------------------------------------------------------------------------
/// The end of the top-level element `i`.
fn end_of(parse: &Parse, i: usize, Ghost(p): Ghost<ParseView>) -> (end: usize)
    requires
        parse.holds(p),
        i < parse.children@.len(),
    ensures
        end == child_end(p, i as int),
{
    let n: usize = parse.children.len();
    if i + 1 < n {
        proof {
            assert(p.children[i + 1] == parse.children@[i + 1].view());
        }
        parse.children[i + 1].offset as usize
    } else {
        parse.len as usize
    }
}

/// The elements an edit touches and the offsets of the region they cover.
struct Region {
    lo: usize,
    hi: usize,
    prefix: usize,
    suffix_start: usize,
}

/// Finds the elements that have to be reparsed, before the new text is looked at.
fn touched(
    old: &Parse,
    old_text: &str,
    edit: Edit,
    Ghost(p): Ghost<ParseView>,
) -> (out: Option<Region>)
    requires
        old.holds(p),
        p.len == blen(old_text@),
        in_order(p.children, p.len),
    ensures
        ({
            let bytes = old_text.spec_bytes();
            let n = p.children.len() as int;
            let first = first_touching(p, edit.start as int, 0);
            let last = last_touching(p, edit.old_end as int, n - 1);
            match out {
                None => n == 0 || first >= n || last < 0 || first > last,
                Some(r) => {
                    &&& !(n == 0 || first >= n || last < 0 || first > last)
                    &&& r.lo == line_start_child(bytes, p, if first > 0 { first - 1 } else { 0 })
                    &&& r.hi == line_stop_child(bytes, p, if last + 1 < n { last + 1 } else { n - 1 })
                    &&& 0 <= r.lo <= r.hi < n
                    &&& r.lo == 0 || bytes[p.children[r.lo as int].offset - 1] == 10
                    &&& r.hi + 1 == n || bytes[child_end(p, r.hi as int) - 1] == 10
                    &&& r.prefix == p.children[r.lo as int].offset
                    &&& r.suffix_start == child_end(p, r.hi as int)
                    &&& r.prefix < r.suffix_start <= p.len
                },
            }
        }),
{
    let bytes = old_text.as_bytes();
    let n: usize = old.children.len();
    if n == 0 {
        return None;
    }
    let mut first: usize = 0;
    while first < n && end_of(old, first, Ghost(p)) < edit.start
        invariant
            old.holds(p),
            n == old.children@.len(),
            first <= n,
            first_touching(p, edit.start as int, 0) == first_touching(
                p,
                edit.start as int,
                first as int,
            ),
        decreases n - first,
    {
        first += 1;
    }
    // `last` counts the elements up to the last one that is touched.
    let mut last: usize = n;
    while last > 0 && old.children[last - 1].offset as usize > edit.old_end
        invariant
            old.holds(p),
            n == old.children@.len(),
            last <= n,
            last_touching(p, edit.old_end as int, n - 1) == last_touching(
                p,
                edit.old_end as int,
                last - 1,
            ),
            forall|k: int|
                0 <= k < n ==> p.children[k].offset == (#[trigger] old.children@[k]).offset,
        decreases last,
    {
        last -= 1;
    }
    proof {
        if last > 0 {
            assert(p.children[last - 1].offset == old.children@[last - 1].offset);
        }
    }
    if first >= n || last == 0 || first > last - 1 {
        return None;
    }
    let mut lo: usize = if first > 0 {
        first - 1
    } else {
        0
    };
    let mut hi: usize = if last < n {
        last
    } else {
        n - 1
    };
    let ghost lo0 = lo as int;
    let ghost hi0 = hi as int;
    proof {
        assert forall|k: int| 0 < k < n implies 0 < (#[trigger] p.children[k]).offset by {
            assert(p.children[0].offset < p.children[k].offset);
        }
    }
    loop
        invariant
            old.holds(p),
            n == old.children@.len(),
            bytes@ == old_text.spec_bytes(),
            bytes@.len() == p.len,
            in_order(p.children, p.len),
            lo < n,
            lo <= lo0,
            line_start_child(bytes@, p, lo0) == line_start_child(bytes@, p, lo as int),
            forall|k: int| 0 < k < n ==> 0 < (#[trigger] p.children[k]).offset,
        ensures
            lo < n,
            lo <= lo0,
            line_start_child(bytes@, p, lo0) == lo,
            lo == 0 || bytes@[p.children[lo as int].offset - 1] == 10,
        decreases lo,
    {
        proof {
            assert(p.children[lo as int] == old.children@[lo as int].view());
        }
        if lo == 0 || bytes[old.children[lo].offset as usize - 1] == 10 {
            break;
        }
        lo -= 1;
    }
    loop
        invariant
            old.holds(p),
            n == old.children@.len(),
            bytes@ == old_text.spec_bytes(),
            bytes@.len() == p.len,
            in_order(p.children, p.len),
            hi0 <= hi < n,
            line_stop_child(bytes@, p, hi0) == line_stop_child(bytes@, p, hi as int),
            forall|k: int| 0 < k < n ==> 0 < (#[trigger] p.children[k]).offset,
        ensures
            hi0 <= hi < n,
            line_stop_child(bytes@, p, hi0) == hi,
            hi + 1 == n || bytes@[child_end(p, hi as int) - 1] == 10,
        decreases n - hi,
    {
        if hi + 1 >= n {
            break;
        }
        proof {
            assert(0 < p.children[hi + 1].offset);
        }
        if bytes[end_of(old, hi, Ghost(p)) - 1] == 10 {
            break;
        }
        hi += 1;
    }
    proof {
        assert(p.children[lo as int] == old.children@[lo as int].view());
        if hi + 1 < n {
            assert(p.children[lo as int].offset < p.children[hi + 1].offset);
        }
    }
    Some(
        Region {
            lo,
            hi,
            prefix: old.children[lo].offset as usize,
            suffix_start: end_of(old, hi, Ghost(p)),
        },
    )
}

/// Copies the elements `[from, to)`, moved by `plus - minus` bytes.
fn copy_children(
    children: &Vec<Child>,
    from: usize,
    to: usize,
    plus: usize,
    minus: usize,
    out: &mut Vec<Child>,
)
    requires
        from <= to <= children@.len(),
        forall|k: int|
            from <= k < to ==> 0 <= (#[trigger] children@[k]).offset + plus - minus <= u32::MAX,
        plus <= u32::MAX,
        minus <= u32::MAX,
    ensures
        child_views(final(out)@) == child_views(old(out)@) + shift_children(
            child_views(children@).subrange(from as int, to as int),
            plus - minus,
        ),
{
    let mut k: usize = from;
    let ghost all = shift_children(
        child_views(children@).subrange(from as int, to as int),
        plus - minus,
    );
    proof {
        assert(child_views(out@) =~= child_views(old(out)@) + all.take(0));
    }
    while k < to
        invariant
            from <= k <= to <= children@.len(),
            forall|k: int|
                from <= k < to ==> 0 <= (#[trigger] children@[k]).offset + plus - minus
                    <= u32::MAX,
            plus <= u32::MAX,
            minus <= u32::MAX,
            all == shift_children(
                child_views(children@).subrange(from as int, to as int),
                plus - minus,
            ),
            child_views(out@) == child_views(old(out)@) + all.take(k - from),
        decreases to - k,
    {
        let child = &children[k];
        let offset: u64 = child.offset as u64 + plus as u64 - minus as u64;
        let ghost before = out@;
        out.push(Child { offset: offset as u32, element: share(&child.element) });
        proof {
            assert(all.take(k + 1 - from) =~= all.take(k - from).push(all[k - from]));
            assert(child_views(out@) =~= child_views(before).push(all[k - from]));
        }
        k += 1;
    }
    proof {
        assert(all.take(to - from) =~= all);
    }
}

proof fn lemma_errors_push(
    errors: Seq<SyntaxError>,
    view: Seq<ErrorView>,
    error: SyntaxError,
    one: ErrorView,
)
    requires
        errors_match(errors, view),
        error.kind == one.kind,
        error.start == one.start,
        error.end == one.end,
        error.message@ == error_message(one.kind),
    ensures
        errors_match(errors.push(error), view.push(one)),
{
}

/// Appends the errors `[from, to)`, moved by `plus - minus` bytes.
fn copy_errors(
    errors: &Vec<SyntaxError>,
    from: usize,
    to: usize,
    plus: usize,
    minus: usize,
    out: &mut Vec<SyntaxError>,
    Ghost(view): Ghost<Seq<ErrorView>>,
    Ghost(had): Ghost<Seq<ErrorView>>,
)
    requires
        errors_match(errors@, view),
        errors_match(old(out)@, had),
        from <= to <= errors@.len(),
        plus <= u32::MAX,
        minus <= u32::MAX,
        forall|k: int| #![trigger errors@[k]]
            from <= k < to ==> {
                &&& minus <= errors@[k].start + plus
                &&& errors@[k].start <= errors@[k].end <= u32::MAX
                &&& errors@[k].end + plus - minus <= u32::MAX
            },
    ensures
        errors_match(
            final(out)@,
            had + shift_errors(view.subrange(from as int, to as int), plus - minus),
        ),
{
    let mut k: usize = from;
    let ghost all = shift_errors(view.subrange(from as int, to as int), plus - minus);
    proof {
        assert(had + all.take(0) =~= had);
    }
    while k < to
        invariant
            errors_match(errors@, view),
            from <= k <= to <= errors@.len(),
            plus <= u32::MAX,
            minus <= u32::MAX,
            forall|k: int| #![trigger errors@[k]]
                from <= k < to ==> {
                    &&& minus <= errors@[k].start + plus
                    &&& errors@[k].start <= errors@[k].end <= u32::MAX
                    &&& errors@[k].end + plus - minus <= u32::MAX
                },
            all == shift_errors(view.subrange(from as int, to as int), plus - minus),
            errors_match(out@, had + all.take(k - from)),
        decreases to - k,
    {
        let e = &errors[k];
        let start: u64 = e.start as u64 + plus as u64 - minus as u64;
        let end: u64 = e.end as u64 + plus as u64 - minus as u64;
        let moved = SyntaxError::of(e.kind, start as usize, end as usize);
        proof {
            assert(all.take(k + 1 - from) =~= all.take(k - from).push(all[k - from]));
            assert((had + all.take(k - from)).push(all[k - from]) =~= had + all.take(k + 1 - from));
            lemma_errors_push(out@, had + all.take(k - from), moved, all[k - from]);
        }
        out.push(moved);
        k += 1;
    }
    proof {
        assert(all.take(to - from) =~= all);
    }
}

/// Whether a parse reports an unterminated scope.
fn reports_unterminated(errors: &Vec<SyntaxError>, Ghost(view): Ghost<Seq<ErrorView>>) -> (found: bool)
    requires
        errors_match(errors@, view),
    ensures
        found == has_unterminated(view),
{
    let mut i: usize = 0;
    while i < errors.len()
        invariant
            errors_match(errors@, view),
            i <= errors@.len(),
            forall|j: int|
                0 <= j < i ==> (#[trigger] view[j]).kind != SyntaxErrorKind::UnterminatedBlock,
        decreases errors@.len() - i,
    {
        if errors[i].kind == SyntaxErrorKind::UnterminatedBlock {
            assert(view[i as int].kind == SyntaxErrorKind::UnterminatedBlock);
            return true;
        }
        i += 1;
    }
    false
}

/// Tries to splice the reparsed region into the old parse.
fn try_splice<O: OpenerOracle>(
    old: &Parse,
    old_text: &str,
    new_text: &str,
    edit: Edit,
    oracle: &O,
) -> (out: Option<Parse>)
    requires
        old.holds(parse_text(*oracle, old_text@)),
        blen(old_text@) <= u32::MAX,
        blen(new_text@) <= u32::MAX,
    ensures
        out is Some == splices(
            *oracle,
            old_text.spec_bytes(),
            new_text.spec_bytes(),
            parse_text(*oracle, old_text@),
            edit,
        ),
        out is Some && edit_applies(old_text.spec_bytes(), new_text.spec_bytes(), edit)
            ==> (out->0).holds(parse_text(*oracle, new_text@)),
{
    let ghost p = parse_text(*oracle, old_text@);
    proof {
        parse_children_are_in_order(*oracle, old_text@);
        parse_errors_are_inside(*oracle, old_text@);
        vstd::utf8::encode_utf8_valid_utf8(new_text@);
    }
    let old_len: usize = byte_len(old_text);
    let new_len: usize = byte_len(new_text);
    // The edit must describe `old_text -> new_text` consistently.
    if edit.start > edit.old_end || edit.old_end > old_len || edit.new_len > new_len || old_len - (
    edit.old_end - edit.start) != new_len - edit.new_len {
        return None;
    }
    let region = match touched(old, old_text, edit, Ghost(p)) {
        Some(region) => region,
        None => {
            return None;
        },
    };
    let suffix_len: usize = old_len - region.suffix_start;
    if edit.start < region.prefix || edit.old_end > region.suffix_start || suffix_len > new_len {
        return None;
    }
    let stop: usize = new_len - suffix_len;
    let text = match get_range(new_text, region.prefix, stop) {
        Some(text) => text,
        None => {
            return None;
        },
    };
    let new_bytes = new_text.as_bytes();
    if suffix_len > 0 && region.prefix < stop && new_bytes[stop - 1] != 10 {
        return None;  // the edit removed the region's trailing newline
    }
    proof {
        vstd::utf8::encode_utf8_decode_utf8(text@);
        assert(edited_text(
            old_text.spec_bytes(),
            new_text.spec_bytes(),
            p,
            region.lo as int,
            region.hi as int,
        ) == text@);
    }
    let _ = byte_len(text);
    let fragment = parse(text, oracle);
    let ghost f = parse_text(*oracle, text@);
    proof {
        parse_children_are_in_order(*oracle, text@);
        parse_errors_are_inside(*oracle, text@);
        lemma_closed_iff(*oracle, text@);
    }
    // An open scope at the fragment's end would swallow the suffix in a full
    // parse, so the splice would diverge, unless there is no suffix.
    if suffix_len > 0 && reports_unterminated(&fragment.errors, Ghost(f.errors)) {
        return None;
    }
    let total: usize = old.children.len();
    let next: usize = region.hi + 1;
    let ghost c1 = lemma_cut_at(*oracle, old_text@, region.lo as int);
    let ghost c2 = if next < total {
        lemma_cut_at(*oracle, old_text@, next as int)
    } else {
        lemma_cut_at_end(*oracle, old_text@);
        old_text@.len() as int
    };
    let ghost a = parse_text(*oracle, old_text@.take(c1)).errors.len() as int;
    let ghost b = parse_text(*oracle, old_text@.take(c2)).errors.len() as int;
    proof {
        lemma_cut_lengths(*oracle, old_text@, region.lo as int, c1);
        lemma_cut_lengths(*oracle, old_text@, next as int, c2);
    }
    // Splice: prefix elements, fragment elements, suffix elements.
    let mut children: Vec<Child> = Vec::new();
    proof {
        assert(child_views(children@) =~= Seq::<ChildView>::empty());
        assert forall|k: int| 0 <= k < old.children@.len() implies (#[trigger] old.children@[k]).offset
            == p.children[k].offset && p.children[k].offset < p.len by {
            assert(p.children[k] == child_views(old.children@)[k]);
        }
        assert forall|k: int| 0 <= k < fragment.children@.len() implies (
        #[trigger] fragment.children@[k]).offset < f.len by {
            assert(f.children[k] == child_views(fragment.children@)[k]);
        }
        assert forall|k: int| next <= k < old.children@.len() implies (
        #[trigger] old.children@[k]).offset >= region.suffix_start by {
            if k > next {
                assert(p.children[next as int].offset < p.children[k].offset);
            }
            assert(p.children[k] == child_views(old.children@)[k]);
        }
    }
    copy_children(&old.children, 0, region.lo, 0, 0, &mut children);
    copy_children(&fragment.children, 0, fragment.children.len(), region.prefix, 0, &mut children);
    copy_children(&old.children, next, total, new_len, old_len, &mut children);
    // Errors: keep the prefix's, rebase the fragment's, shift the suffix's.
    let mut kept: usize = 0;
    while kept < old.errors.len() && old.errors[kept].end <= region.prefix
        invariant
            errors_match(old.errors@, p.errors),
            errors_cut(p.errors, a, region.prefix as int),
            kept <= a,
        ensures
            kept == a,
        decreases old.errors@.len() - kept,
    {
        assert(p.errors[kept as int].end == old.errors@[kept as int].end);
        kept += 1;
    }
    let mut moved: usize = 0;
    while moved < old.errors.len() && old.errors[moved].start < region.suffix_start
        invariant
            errors_match(old.errors@, p.errors),
            errors_cut(p.errors, b, region.suffix_start as int),
            moved <= b,
        ensures
            moved == b,
        decreases old.errors@.len() - moved,
    {
        assert(p.errors[moved as int].start == old.errors@[moved as int].start);
        moved += 1;
    }
    let mut errors: Vec<SyntaxError> = Vec::new();
    let ghost none = Seq::<ErrorView>::empty();
    let ghost first = none + shift_errors(p.errors.subrange(0, kept as int), 0);
    let ghost second = first + shift_errors(
        f.errors.subrange(0, f.errors.len() as int),
        region.prefix as int,
    );
    proof {
        assert forall|k: int| #![trigger old.errors@[k]] 0 <= k < old.errors@.len() implies
            old.errors@[k].start == p.errors[k].start && old.errors@[k].end == p.errors[k].end
            && old.errors@[k].start < old.errors@[k].end <= p.len by {
            assert(p.errors[k].start < p.errors[k].end);
        }
        assert forall|k: int| #![trigger fragment.errors@[k]]
            0 <= k < fragment.errors@.len() implies fragment.errors@[k].start
            < fragment.errors@[k].end <= f.len by {
            assert(f.errors[k].start < f.errors[k].end);
        }
        assert forall|k: int| #![trigger old.errors@[k]] moved <= k < old.errors@.len() implies
            region.suffix_start <= old.errors@[k].start by {
            assert(region.suffix_start <= p.errors[k].start);
        }
    }
    copy_errors(&old.errors, 0, kept, 0, 0, &mut errors, Ghost(p.errors), Ghost(none));
    copy_errors(
        &fragment.errors,
        0,
        fragment.errors.len(),
        region.prefix,
        0,
        &mut errors,
        Ghost(f.errors),
        Ghost(first),
    );
    copy_errors(
        &old.errors,
        moved,
        old.errors.len(),
        new_len,
        old_len,
        &mut errors,
        Ghost(p.errors),
        Ghost(second),
    );
    proof {
        if edit_applies(old_text.spec_bytes(), new_text.spec_bytes(), edit) {
            if suffix_len > 0 && text@.len() > 0 {
                crate::text::lemma_last_byte_newline(text@);
            }
            lemma_new_text(
                new_text@,
                old_text@.take(c1),
                text@,
                old_text@.skip(c2),
                old_text.spec_bytes(),
                edit,
                region.prefix as int,
                region.suffix_start as int,
            );
            lemma_splice(
                *oracle,
                old_text@,
                new_text@,
                text@,
                region.lo as int,
                region.hi as int,
                c1,
                c2,
            );
            let got = parse_text(*oracle, new_text@);
            let delta = new_len - old_len;
            assert(child_views(children@) =~= got.children) by {
                assert(p.children.subrange(0, region.lo as int) =~= p.children.take(
                    region.lo as int,
                ));
                assert(shift_children(p.children.take(region.lo as int), 0) =~= p.children.take(
                    region.lo as int,
                ));
                assert(f.children.subrange(0, f.children.len() as int) =~= f.children);
                assert(p.children.subrange(next as int, total as int) =~= p.children.skip(
                    next as int,
                ));
            }
            assert(second + shift_errors(
                p.errors.subrange(moved as int, p.errors.len() as int),
                delta,
            ) =~= got.errors) by {
                assert(first =~= p.errors.take(a));
                assert(f.errors.subrange(0, f.errors.len() as int) =~= f.errors);
                assert(p.errors.subrange(moved as int, p.errors.len() as int) =~= p.errors.skip(b));
            }
        }
    }
    let out = Parse { children, errors, len: new_len as u32 };
    Some(out)
}

/// Reparse after an edit. `old` must be the parse of `old_text`; when
/// `new_text` is `old_text` with `edit` applied, the result is identical to
/// `parse(new_text, oracle)`.
pub fn reparse<O: OpenerOracle>(
    old: &Parse,
    old_text: &str,
    new_text: &str,
    edit: Edit,
    oracle: &O,
) -> (out: (Parse, Strategy))
    requires
        old.holds(parse_text(*oracle, old_text@)),
        blen(old_text@) <= u32::MAX,
        blen(new_text@) <= u32::MAX,
    ensures
        edit_applies(old_text.spec_bytes(), new_text.spec_bytes(), edit) ==> out.0.holds(
            parse_text(*oracle, new_text@),
        ),
        out.1 == Strategy::Full ==> out.0.holds(parse_text(*oracle, new_text@)),
        (out.1 == Strategy::Spliced) == splices(
            *oracle,
            old_text.spec_bytes(),
            new_text.spec_bytes(),
            parse_text(*oracle, old_text@),
            edit,
        ),
{
    match try_splice(old, old_text, new_text, edit, oracle) {
        Some(p) => (p, Strategy::Spliced),
        None => (parse(new_text, oracle), Strategy::Full),
    }
}

} // verus!
