//! Which scopes are open where, line by line.
//!
//! What a line opens and closes follows from its words and from the scopes that
//! are open before it. Blanks change nothing.

use vstd::prelude::*;
use vstd::string::*;

use crate::format::{deeper, token_depth};
use crate::incremental::{lemma_line_end_local, lemma_line_end_shift};
use crate::kind::{trivia_kind, SyntaxKind};
use crate::lexer::{lex, TokenView};
use crate::parser::{
    close_all, close_top, initial_state, lemma_line_end, line_blank, line_end, line_has_equals,
    line_head, line_is_end, parse_text, run, step, ErrorView, FrameView, OpenerOracle, StateView,
    SyntaxErrorKind,
};

verus! {

// ---------------------------------------------------------------------------
// Scopes by line
// ---------------------------------------------------------------------------
/// The depth inside `n` scopes.
pub open spec fn nested(n: nat) -> u32
    decreases n,
{
    if n == 0 {
        0
    } else {
        deeper(nested((n - 1) as nat))
    }
}

/// Whether a line opens a scope inside the scopes with the given heads.
pub open spec fn opens_scope<O: OpenerOracle>(
    oracle: O,
    heads: Seq<Seq<char>>,
    line: Seq<TokenView>,
) -> bool {
    if heads.len() == 0 {
        line_head(line) is None || oracle.opens_file(line_head(line)->0)
    } else {
        line_head(line) is Some && oracle.opens(
            Some(heads.last()),
            line_head(line)->0,
            line_has_equals(line),
        )
    }
}

/// The heads of the scopes that are open after a line.
pub open spec fn heads_after<O: OpenerOracle>(
    oracle: O,
    heads: Seq<Seq<char>>,
    line: Seq<TokenView>,
) -> Seq<Seq<char>> {
    if line_blank(line) {
        heads
    } else if line_is_end(line) {
        if heads.len() == 0 {
            heads
        } else {
            heads.drop_last()
        }
    } else if opens_scope(oracle, heads, line) {
        heads.push(
            match line_head(line) {
                Some(head) => head,
                None => Seq::empty(),
            },
        )
    } else {
        heads
    }
}

/// The depth of every token of a line.
pub open spec fn line_depth<O: OpenerOracle>(
    oracle: O,
    heads: Seq<Seq<char>>,
    line: Seq<TokenView>,
) -> u32 {
    if line_blank(line) || line_is_end(line) {
        token_depth(nested(heads.len()), true)
    } else if opens_scope(oracle, heads, line) {
        token_depth(nested(heads.len() + 1), true)
    } else {
        nested(heads.len())
    }
}

/// The heads of the scopes that are open after the lines from token `i` on.
pub open spec fn heads_from<O: OpenerOracle>(
    oracle: O,
    tokens: Seq<TokenView>,
    i: int,
    heads: Seq<Seq<char>>,
) -> Seq<Seq<char>>
    decreases tokens.len() - i,
{
    if 0 <= i < tokens.len() {
        let end = line_end(tokens, i);
        proof {
            lemma_line_end(tokens, i);
        }
        heads_from(oracle, tokens, end, heads_after(oracle, heads, tokens.subrange(i, end)))
    } else {
        heads
    }
}

/// The depth of every token from token `i` on.
pub open spec fn depths_from<O: OpenerOracle>(
    oracle: O,
    tokens: Seq<TokenView>,
    i: int,
    heads: Seq<Seq<char>>,
) -> Seq<u32>
    decreases tokens.len() - i,
{
    if 0 <= i < tokens.len() {
        let end = line_end(tokens, i);
        proof {
            lemma_line_end(tokens, i);
        }
        let line = tokens.subrange(i, end);
        let depth = line_depth(oracle, heads, line);
        Seq::new((end - i) as nat, |k: int| depth) + depths_from(
            oracle,
            tokens,
            end,
            heads_after(oracle, heads, line),
        )
    } else {
        Seq::empty()
    }
}

pub proof fn lemma_depths_from_len<O: OpenerOracle>(
    oracle: O,
    tokens: Seq<TokenView>,
    i: int,
    heads: Seq<Seq<char>>,
)
    requires
        0 <= i <= tokens.len(),
    ensures
        depths_from(oracle, tokens, i, heads).len() == tokens.len() - i,
    decreases tokens.len() - i,
{
    if i < tokens.len() {
        let end = line_end(tokens, i);
        lemma_line_end(tokens, i);
        lemma_depths_from_len(
            oracle,
            tokens,
            end,
            heads_after(oracle, heads, tokens.subrange(i, end)),
        );
    }
}

/// The heads of the scopes that are open after a text.
pub open spec fn text_heads<O: OpenerOracle>(
    oracle: O,
    heads: Seq<Seq<char>>,
    text: Seq<char>,
) -> Seq<Seq<char>> {
    heads_from(oracle, lex(text), 0, heads)
}

/// The depth of the line that a text starts with.
pub open spec fn text_depth<O: OpenerOracle>(
    oracle: O,
    heads: Seq<Seq<char>>,
    text: Seq<char>,
) -> u32 {
    depths_from(oracle, lex(text), 0, heads)[0]
}

// ---------------------------------------------------------------------------
// Lines of tokens
// ---------------------------------------------------------------------------
proof fn lemma_concat<O: OpenerOracle>(
    oracle: O,
    a: Seq<TokenView>,
    b: Seq<TokenView>,
    i: int,
    heads: Seq<Seq<char>>,
)
    requires
        0 <= i <= a.len(),
        a.len() == 0 || a.last().kind == SyntaxKind::NEWLINE,
    ensures
        heads_from(oracle, a + b, i, heads) == heads_from(
            oracle,
            a + b,
            a.len() as int,
            heads_from(oracle, a, i, heads),
        ),
        depths_from(oracle, a + b, i, heads) == depths_from(oracle, a, i, heads) + depths_from(
            oracle,
            a + b,
            a.len() as int,
            heads_from(oracle, a, i, heads),
        ),
    decreases a.len() - i,
{
    if i < a.len() {
        let end = line_end(a, i);
        lemma_line_end(a, i);
        lemma_line_end_local(a, b, i);
        let line = a.subrange(i, end);
        assert((a + b).subrange(i, end) =~= line);
        lemma_concat(oracle, a, b, end, heads_after(oracle, heads, line));
        assert(depths_from(oracle, a + b, i, heads) =~= depths_from(oracle, a, i, heads)
            + depths_from(oracle, a + b, a.len() as int, heads_from(oracle, a, i, heads)));
    } else {
        assert(depths_from(oracle, a, i, heads) =~= Seq::<u32>::empty());
        assert(depths_from(oracle, a + b, i, heads) =~= depths_from(oracle, a, i, heads)
            + depths_from(oracle, a + b, i, heads));
    }
}

proof fn lemma_shift<O: OpenerOracle>(
    oracle: O,
    a: Seq<TokenView>,
    b: Seq<TokenView>,
    i: int,
    heads: Seq<Seq<char>>,
)
    requires
        0 <= i <= b.len(),
    ensures
        heads_from(oracle, a + b, a.len() + i, heads) == heads_from(oracle, b, i, heads),
        depths_from(oracle, a + b, a.len() + i, heads) == depths_from(oracle, b, i, heads),
    decreases b.len() - i,
{
    if i < b.len() {
        let end = line_end(b, i);
        lemma_line_end(b, i);
        lemma_line_end_shift(a, b, i);
        let line = b.subrange(i, end);
        assert((a + b).subrange(a.len() + i, a.len() + end) =~= line);
        lemma_shift(oracle, a, b, end, heads_after(oracle, heads, line));
        assert(depths_from(oracle, a + b, a.len() + i, heads) =~= depths_from(
            oracle,
            b,
            i,
            heads,
        ));
    }
}

/// Whole lines of tokens count on their own.
pub proof fn lemma_join<O: OpenerOracle>(
    oracle: O,
    a: Seq<TokenView>,
    b: Seq<TokenView>,
    heads: Seq<Seq<char>>,
)
    requires
        a.len() == 0 || a.last().kind == SyntaxKind::NEWLINE || b.len() == 0,
    ensures
        heads_from(oracle, a + b, 0, heads) == heads_from(
            oracle,
            b,
            0,
            heads_from(oracle, a, 0, heads),
        ),
        depths_from(oracle, a + b, 0, heads) == depths_from(oracle, a, 0, heads) + depths_from(
            oracle,
            b,
            0,
            heads_from(oracle, a, 0, heads),
        ),
{
    if b.len() == 0 {
        assert(a + b =~= a);
        assert(depths_from(oracle, a, 0, heads) + Seq::<u32>::empty() =~= depths_from(
            oracle,
            a,
            0,
            heads,
        ));
    } else {
        lemma_concat(oracle, a, b, 0, heads);
        lemma_shift(oracle, a, b, 0, heads_from(oracle, a, 0, heads));
    }
}

proof fn lemma_blank_head(w: TokenView, line: Seq<TokenView>)
    requires
        w.kind == SyntaxKind::WHITESPACE,
    ensures
        line_head(seq![w] + line) == line_head(line),
    decreases line.len(),
{
    let all = seq![w] + line;
    if line.len() == 0 {
        assert(all.drop_last() =~= Seq::<TokenView>::empty());
        reveal_with_fuel(line_head, 2);
    } else {
        assert(all.drop_last() =~= seq![w] + line.drop_last());
        lemma_blank_head(w, line.drop_last());
    }
}

/// Blanks before a line change neither what it opens or closes nor its depth.
proof fn lemma_blank_line<O: OpenerOracle>(
    oracle: O,
    w: TokenView,
    line: Seq<TokenView>,
    heads: Seq<Seq<char>>,
)
    requires
        w.kind == SyntaxKind::WHITESPACE,
    ensures
        heads_after(oracle, heads, seq![w] + line) == heads_after(oracle, heads, line),
        line_depth(oracle, heads, seq![w] + line) == line_depth(oracle, heads, line),
{
    let all = seq![w] + line;
    lemma_blank_head(w, line);
    assert(all[0] == w);
    assert forall|k: int| 0 <= k < line.len() implies #[trigger] all[k + 1] == line[k] by {}
    assert(line_blank(all) == line_blank(line)) by {
        if line_blank(all) {
            assert forall|k: int| 0 <= k < line.len() implies trivia_kind(
                (#[trigger] line[k]).kind,
            ) by {
                assert(all[k + 1] == line[k]);
            }
        }
        if line_blank(line) {
            assert forall|k: int| 0 <= k < all.len() implies trivia_kind(
                (#[trigger] all[k]).kind,
            ) by {
                if k > 0 {
                    assert(all[k] == line[k - 1]);
                }
            }
        }
    }
    assert(line_has_equals(all) == line_has_equals(line)) by {
        if line_has_equals(all) {
            let k = choose|k: int| 0 <= k < all.len() && (#[trigger] all[k]).kind
                == SyntaxKind::EQUALS;
            assert(line[k - 1] == all[k]);
        }
        if line_has_equals(line) {
            let k = choose|k: int| 0 <= k < line.len() && (#[trigger] line[k]).kind
                == SyntaxKind::EQUALS;
            assert(all[k + 1] == line[k]);
        }
    }
}

pub proof fn lemma_blank_first<O: OpenerOracle>(
    oracle: O,
    w: TokenView,
    tokens: Seq<TokenView>,
    heads: Seq<Seq<char>>,
)
    requires
        w.kind == SyntaxKind::WHITESPACE,
        tokens.len() > 0,
    ensures
        heads_from(oracle, seq![w] + tokens, 0, heads) == heads_from(oracle, tokens, 0, heads),
        depths_from(oracle, seq![w] + tokens, 0, heads)[0] == depths_from(
            oracle,
            tokens,
            0,
            heads,
        )[0],
        depths_from(oracle, seq![w] + tokens, 0, heads)[1] == depths_from(
            oracle,
            tokens,
            0,
            heads,
        )[0],
{
    let all = seq![w] + tokens;
    let end = line_end(tokens, 0);
    lemma_line_end(tokens, 0);
    lemma_line_end_shift(seq![w], tokens, 0);
    assert(all[0] == w);
    assert(line_end(all, 0) == end + 1);
    let line = tokens.subrange(0, end);
    assert(all.subrange(0, end + 1) =~= seq![w] + line);
    lemma_blank_line(oracle, w, line, heads);
    lemma_shift(oracle, seq![w], tokens, end, heads_after(oracle, heads, line));
}

/// A line ending at the end of the tokens changes no scope.
pub proof fn lemma_newline_last<O: OpenerOracle>(
    oracle: O,
    tokens: Seq<TokenView>,
    newline: TokenView,
    i: int,
    heads: Seq<Seq<char>>,
)
    requires
        0 <= i <= tokens.len(),
        newline.kind == SyntaxKind::NEWLINE,
    ensures
        heads_from(oracle, tokens.push(newline), i, heads) == heads_from(oracle, tokens, i, heads),
    decreases tokens.len() - i,
{
    let all = tokens.push(newline);
    let n = tokens.len() as int;
    if i < n {
        let end = line_end(tokens, i);
        lemma_line_end(tokens, i);
        lemma_line_end(all, i);
        let line = tokens.subrange(i, end);
        if tokens[end - 1].kind == SyntaxKind::NEWLINE {
            lemma_line_end_is(all, i, end);
            assert(all.subrange(i, end) =~= line);
            lemma_newline_last(oracle, tokens, newline, end, heads_after(oracle, heads, line));
        } else {
            assert(end == n);
            lemma_line_end_is(all, i, n + 1);
            let longer = all.subrange(i, n + 1);
            assert(longer =~= line.push(newline));
            lemma_newline_line(oracle, line, newline, heads);
            let after = heads_after(oracle, heads, line);
            assert(heads_from(oracle, all, n + 1, after) == after);
            assert(heads_from(oracle, tokens, n, after) == after);
        }
    } else {
        lemma_line_end_is(all, n, n + 1);
        let line = all.subrange(n, n + 1);
        assert(line =~= seq![newline]);
        assert(line_blank(line));
        assert(heads_from(oracle, all, n + 1, heads) == heads);
        assert(heads_from(oracle, tokens, n, heads) == heads);
    }
}

proof fn lemma_line_end_is(tokens: Seq<TokenView>, i: int, end: int)
    requires
        0 <= i < end <= tokens.len(),
        forall|k: int| i <= k < end - 1 ==> (#[trigger] tokens[k]).kind != SyntaxKind::NEWLINE,
        end == tokens.len() || tokens[end - 1].kind == SyntaxKind::NEWLINE,
    ensures
        line_end(tokens, i) == end,
{
    lemma_line_end(tokens, i);
    let found = line_end(tokens, i);
    if found < end {
        assert(tokens[found - 1].kind == SyntaxKind::NEWLINE);
    }
    if end < found {
        assert(tokens[end - 1].kind == SyntaxKind::NEWLINE);
    }
}

proof fn lemma_newline_line<O: OpenerOracle>(
    oracle: O,
    line: Seq<TokenView>,
    newline: TokenView,
    heads: Seq<Seq<char>>,
)
    requires
        newline.kind == SyntaxKind::NEWLINE,
    ensures
        heads_after(oracle, heads, line.push(newline)) == heads_after(oracle, heads, line),
{
    let all = line.push(newline);
    assert(all.drop_last() =~= line);
    assert(line_head(all) == line_head(line));
    assert(line_blank(all) == line_blank(line)) by {
        if line_blank(all) {
            assert forall|k: int| 0 <= k < line.len() implies trivia_kind(
                (#[trigger] line[k]).kind,
            ) by {
                assert(all[k] == line[k]);
            }
        }
    }
    assert(line_has_equals(all) == line_has_equals(line)) by {
        if line_has_equals(all) {
            let k = choose|k: int| 0 <= k < all.len() && (#[trigger] all[k]).kind
                == SyntaxKind::EQUALS;
            assert(line[k] == all[k]);
        }
        if line_has_equals(line) {
            let k = choose|k: int| 0 <= k < line.len() && (#[trigger] line[k]).kind
                == SyntaxKind::EQUALS;
            assert(all[k] == line[k]);
        }
    }
}

// ---------------------------------------------------------------------------
// Scopes in a parse
// ---------------------------------------------------------------------------
/// The heads of open frames.
pub open spec fn heads_of(stack: Seq<FrameView>) -> Seq<Seq<char>> {
    Seq::new(stack.len(), |i: int| stack[i].head)
}

pub proof fn lemma_step_heads<O: OpenerOracle>(oracle: O, st: StateView, line: Seq<TokenView>)
    ensures
        heads_of(step(oracle, st, line).stack) == heads_after(oracle, heads_of(st.stack), line),
{
    let next = step(oracle, st, line);
    let heads = heads_of(st.stack);
    if st.stack.len() > 0 {
        assert(heads.last() == st.stack.last().head);
    }
    assert(heads_of(next.stack) =~= heads_after(oracle, heads, line));
}

pub proof fn lemma_run_heads<O: OpenerOracle>(
    oracle: O,
    tokens: Seq<TokenView>,
    i: int,
    st: StateView,
)
    requires
        0 <= i <= tokens.len(),
    ensures
        heads_of(run(oracle, tokens, i, st).stack) == heads_from(
            oracle,
            tokens,
            i,
            heads_of(st.stack),
        ),
        unterminated(run(oracle, tokens, i, st).errors) == unterminated(st.errors),
    decreases tokens.len() - i,
{
    if i < tokens.len() {
        let end = line_end(tokens, i);
        lemma_line_end(tokens, i);
        let line = tokens.subrange(i, end);
        let next = step(oracle, st, line);
        lemma_step_heads(oracle, st, line);
        if next.errors.len() > st.errors.len() {
            assert(next.errors.drop_last() =~= st.errors);
        }
        lemma_run_heads(oracle, tokens, end, next);
    }
}

/// How many errors report an unterminated scope.
pub open spec fn unterminated(errors: Seq<ErrorView>) -> nat
    decreases errors.len(),
{
    if errors.len() == 0 {
        0
    } else {
        unterminated(errors.drop_last()) + if errors.last().kind
            == SyntaxErrorKind::UnterminatedBlock {
            1nat
        } else {
            0nat
        }
    }
}

proof fn lemma_close_all_count(st: StateView)
    ensures
        unterminated(close_all(st).errors) == unterminated(st.errors) + st.stack.len(),
    decreases st.stack.len(),
{
    if st.stack.len() > 0 {
        let error = ErrorView {
            kind: SyntaxErrorKind::UnterminatedBlock,
            start: st.stack.last().start,
            end: st.pos,
        };
        let reported = StateView { errors: st.errors.push(error), ..st };
        assert(reported.errors.drop_last() =~= st.errors);
        lemma_close_all_count(close_top(reported, st.pos));
    }
}

/// Law: a parse reports each scope that is left open, once.
pub proof fn open_scopes_are_reported<O: OpenerOracle>(oracle: O, text: Seq<char>)
    ensures
        unterminated(parse_text(oracle, text).errors) == text_heads(
            oracle,
            Seq::empty(),
            text,
        ).len(),
{
    reveal(parse_text);
    let st = initial_state();
    lemma_run_heads(oracle, lex(text), 0, st);
    assert(heads_of(st.stack) =~= Seq::<Seq<char>>::empty());
    lemma_close_all_count(run(oracle, lex(text), 0, st));
}

} // verus!
