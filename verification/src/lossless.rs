//! The tree spells the text it was parsed from.

use vstd::prelude::*;
use vstd::string::*;

use crate::lexer::{
    lex, lex_is_lossless, lemma_token_text_concat, lemma_token_text_one, token_text, TokenView,
};
use crate::parser::{
    add_children, child_views, close_all, close_top, initial_state, leaves, lemma_line_end, line_blank,
    line_end, line_is_end, line_node, loose_tokens, parse_text, run, step, ChildView, ErrorView,
    FrameView, OpenerOracle, Parse, StateView, SyntaxErrorKind,
};
use crate::kind::SyntaxKind;
use crate::tree::{element_text, elements_text, push_text, ElementView, NodeView, SyntaxElement};

verus! {

/// The text of a list of top-level elements.
pub open spec fn document_text(children: Seq<ChildView>) -> Seq<char>
    decreases children.len(),
{
    if children.len() == 0 {
        Seq::empty()
    } else {
        document_text(children.drop_last()) + element_text(children.last().element)
    }
}

spec fn stack_text(stack: Seq<FrameView>) -> Seq<char>
    decreases stack.len(),
{
    if stack.len() == 0 {
        Seq::empty()
    } else {
        stack_text(stack.drop_last()) + elements_text(stack.last().children)
    }
}

spec fn state_text(st: StateView) -> Seq<char> {
    document_text(st.done) + stack_text(st.stack)
}

proof fn lemma_elements_concat(a: Seq<ElementView>, b: Seq<ElementView>)
    ensures
        elements_text(a + b) == elements_text(a) + elements_text(b),
    decreases b.len(),
{
    if b.len() == 0 {
        assert(a + b =~= a);
        assert(elements_text(a) + elements_text(b) =~= elements_text(a));
    } else {
        assert((a + b).drop_last() =~= a + b.drop_last());
        lemma_elements_concat(a, b.drop_last());
        assert(elements_text(a + b) =~= elements_text(a) + elements_text(b));
    }
}

proof fn lemma_leaves_text(line: Seq<TokenView>, at: int)
    ensures
        elements_text(leaves(line, at)) == token_text(line),
    decreases line.len(),
{
    let all = leaves(line, at);
    if line.len() > 0 {
        let n = line.len() - 1;
        let short = line.drop_last();
        lemma_leaves_text(short, at);
        assert(all.drop_last() =~= leaves(short, at)) by {
            assert forall|k: int| 0 <= k < n implies all[k] == leaves(short, at)[k] by {
                assert(line.take(k) =~= short.take(k));
                assert(line.take(k + 1) =~= short.take(k + 1));
            }
        }
        assert(line =~= short + seq![line.last()]);
        lemma_token_text_concat(short, seq![line.last()]);
        lemma_token_text_one(line.last());
        assert(element_text(all.last()) == line.last().text);
    } else {
        assert(all =~= Seq::<ElementView>::empty());
    }
}

proof fn lemma_elements_one(e: ElementView)
    ensures
        elements_text(seq![e]) == element_text(e),
{
    assert(seq![e].drop_last() =~= Seq::<ElementView>::empty());
    reveal_with_fuel(elements_text, 2);
    assert(Seq::<char>::empty() + element_text(e) =~= element_text(e));
}

proof fn lemma_loose_text(done: Seq<ChildView>, line: Seq<TokenView>, pos: int, k: int)
    requires
        0 <= k <= line.len(),
    ensures
        document_text(done + loose_tokens(line, pos).take(k)) == document_text(done) + token_text(
            line.take(k),
        ),
    decreases k,
{
    let all = loose_tokens(line, pos);
    if k == 0 {
        assert(done + all.take(0) =~= done);
        assert(line.take(0) =~= Seq::<TokenView>::empty());
        assert(document_text(done) + Seq::<char>::empty() =~= document_text(done));
    } else {
        lemma_loose_text(done, line, pos, k - 1);
        let more = done + all.take(k);
        assert(more.drop_last() =~= done + all.take(k - 1));
        assert(line.take(k) =~= line.take(k - 1) + seq![line[k - 1]]);
        lemma_token_text_concat(line.take(k - 1), seq![line[k - 1]]);
        lemma_token_text_one(line[k - 1]);
        assert(document_text(more) =~= document_text(done) + token_text(line.take(k)));
    }
}

proof fn lemma_add_text(stack: Seq<FrameView>, elements: Seq<ElementView>)
    requires
        stack.len() > 0,
    ensures
        stack_text(add_children(stack, elements)) == stack_text(stack) + elements_text(elements),
{
    let next = add_children(stack, elements);
    assert(next.drop_last() =~= stack.drop_last());
    lemma_elements_concat(stack.last().children, elements);
    assert(stack_text(next) =~= stack_text(stack) + elements_text(elements));
}

proof fn lemma_close_text(st: StateView, end: int)
    requires
        st.stack.len() > 0,
    ensures
        state_text(close_top(st, end)) == state_text(st),
{
    let top = st.stack.last();
    let base = st.stack[0].start;
    let node = ElementView::Node(
        NodeView {
            kind: top.kind,
            start: top.start - base,
            end: end - base,
            children: top.children,
        },
    );
    let next = close_top(st, end);
    if st.stack.len() == 1 {
        reveal_with_fuel(stack_text, 2);
        assert(st.stack.drop_last() =~= Seq::<FrameView>::empty());
        assert(next.done.drop_last() =~= st.done);
        assert(stack_text(st.stack) =~= elements_text(top.children));
        assert(state_text(next) =~= state_text(st));
    } else {
        lemma_add_text(st.stack.drop_last(), seq![node]);
        lemma_elements_one(node);
    }
}

proof fn lemma_open_text(st: StateView, frame: FrameView)
    ensures
        state_text(StateView { stack: st.stack.push(frame), ..st }) == state_text(st)
            + elements_text(frame.children),
{
    let next = StateView { stack: st.stack.push(frame), ..st };
    assert(next.stack.drop_last() =~= st.stack);
    assert(state_text(next) =~= state_text(st) + elements_text(frame.children));
}

proof fn lemma_push_text(st: StateView, child: ChildView)
    requires
        st.stack.len() == 0,
    ensures
        state_text(StateView { done: st.done.push(child), ..st }) == state_text(st) + element_text(
            child.element,
        ),
{
    let next = StateView { done: st.done.push(child), ..st };
    assert(next.done.drop_last() =~= st.done);
    assert(stack_text(st.stack) =~= Seq::<char>::empty());
    assert(state_text(next) =~= state_text(st) + element_text(child.element));
}

proof fn lemma_add_state_text(st: StateView, elements: Seq<ElementView>)
    requires
        st.stack.len() > 0,
    ensures
        state_text(StateView { stack: add_children(st.stack, elements), ..st }) == state_text(st)
            + elements_text(elements),
{
    let next = StateView { stack: add_children(st.stack, elements), ..st };
    lemma_add_text(st.stack, elements);
    assert(state_text(next) =~= state_text(st) + elements_text(elements));
}

proof fn lemma_state_text_pos(st: StateView, pos: int, errors: Seq<ErrorView>)
    ensures
        state_text(StateView { pos, errors, ..st }) == state_text(st),
{
}

proof fn lemma_step_text<O: OpenerOracle>(oracle: O, st: StateView, line: Seq<TokenView>)
    ensures
        state_text(step(oracle, st, line)) == state_text(st) + token_text(line),
{
    let next = step(oracle, st, line);
    let base = if st.stack.len() > 0 {
        st.stack[0].start
    } else {
        st.pos
    };
    let elements = leaves(line, st.pos - base);
    lemma_leaves_text(line, st.pos - base);
    if line_blank(line) {
        if st.stack.len() == 0 {
            let mid = StateView { done: st.done + loose_tokens(line, st.pos), ..st };
            lemma_loose_text(st.done, line, st.pos, line.len() as int);
            assert(line.take(line.len() as int) =~= line);
            assert(loose_tokens(line, st.pos).take(line.len() as int) =~= loose_tokens(
                line,
                st.pos,
            ));
            assert(stack_text(st.stack) =~= Seq::<char>::empty());
            assert(state_text(mid) =~= state_text(st) + token_text(line));
            lemma_state_text_pos(mid, next.pos, next.errors);
        } else {
            let mid = StateView { stack: add_children(st.stack, elements), ..st };
            lemma_add_state_text(st, elements);
            lemma_state_text_pos(mid, next.pos, next.errors);
        }
    } else if line_is_end(line) {
        if st.stack.len() == 0 {
            let child = ChildView {
                offset: st.pos,
                element: line_node(SyntaxKind::ERROR, line, 0),
            };
            lemma_push_text(st, child);
            lemma_state_text_pos(
                StateView { done: st.done.push(child), ..st },
                next.pos,
                next.errors,
            );
        } else {
            let mid = StateView { stack: add_children(st.stack, elements), ..st };
            lemma_add_state_text(st, elements);
            lemma_close_text(mid, next.pos);
            lemma_state_text_pos(close_top(mid, next.pos), next.pos, next.errors);
        }
    } else if next.stack.len() == st.stack.len() + 1 {
        let frame = next.stack.last();
        lemma_open_text(st, frame);
        lemma_state_text_pos(
            StateView { stack: st.stack.push(frame), ..st },
            next.pos,
            next.errors,
        );
    } else if st.stack.len() == 0 {
        let child = ChildView { offset: st.pos, element: line_node(SyntaxKind::FIELD, line, 0) };
        lemma_push_text(st, child);
        lemma_state_text_pos(
            StateView { done: st.done.push(child), ..st },
            next.pos,
            next.errors,
        );
    } else {
        let field = line_node(SyntaxKind::FIELD, line, st.pos - base);
        lemma_elements_one(field);
        lemma_add_state_text(st, seq![field]);
        lemma_state_text_pos(
            StateView { stack: add_children(st.stack, seq![field]), ..st },
            next.pos,
            next.errors,
        );
    }
}

proof fn lemma_run_text<O: OpenerOracle>(oracle: O, tokens: Seq<TokenView>, i: int, st: StateView)
    requires
        0 <= i <= tokens.len(),
    ensures
        state_text(run(oracle, tokens, i, st)) == state_text(st) + token_text(tokens.skip(i)),
    decreases tokens.len() - i,
{
    if i < tokens.len() {
        let end = line_end(tokens, i);
        lemma_line_end(tokens, i);
        let line = tokens.subrange(i, end);
        lemma_step_text(oracle, st, line);
        lemma_run_text(oracle, tokens, end, step(oracle, st, line));
        assert(tokens.skip(i) =~= line + tokens.skip(end));
        lemma_token_text_concat(line, tokens.skip(end));
        assert(state_text(run(oracle, tokens, i, st)) =~= state_text(st) + token_text(
            tokens.skip(i),
        ));
    } else {
        assert(tokens.skip(i) =~= Seq::<TokenView>::empty());
        assert(state_text(st) + Seq::<char>::empty() =~= state_text(st));
    }
}

proof fn lemma_close_all_text(st: StateView)
    ensures
        document_text(close_all(st).done) == state_text(st),
    decreases st.stack.len(),
{
    if st.stack.len() == 0 {
        assert(state_text(st) =~= document_text(st.done));
    } else {
        let error = ErrorView {
            kind: SyntaxErrorKind::UnterminatedBlock,
            start: st.stack.last().start,
            end: st.pos,
        };
        let reported = StateView { errors: st.errors.push(error), ..st };
        lemma_close_text(reported, st.pos);
        lemma_close_all_text(close_top(reported, st.pos));
    }
}

/// Parsing is lossless: the tree's tokens, in order, spell the source exactly,
/// whatever the oracle decides and whatever errors are reported.
pub proof fn parse_round_trips<O: OpenerOracle>(oracle: O, text: Seq<char>)
    ensures
        document_text(parse_text(oracle, text).children) == text,
{
    reveal(parse_text);
    let toks = lex(text);
    let st = run(oracle, toks, 0, initial_state());
    lemma_run_text(oracle, toks, 0, initial_state());
    lemma_close_all_text(st);
    lex_is_lossless(text);
    assert(toks.skip(0) =~= toks);
    assert(state_text(initial_state()) =~= Seq::<char>::empty());
    assert(Seq::<char>::empty() + text =~= text);
}

impl Parse {
    /// The text of the document: the texts of its tokens, in order.
    pub fn text(&self) -> (out: String)
        ensures
            out@ == document_text(child_views(self.children@)),
    {
        let ghost all = child_views(self.children@);
        let mut out = String::new();
        let mut i: usize = 0;
        assert(all.take(0) =~= Seq::<ChildView>::empty());
        assert(out@ =~= Seq::<char>::empty());
        while i < self.children.len()
            invariant
                i <= self.children@.len(),
                all == child_views(self.children@),
                out@ == document_text(all.take(i as int)),
            decreases self.children@.len() - i,
        {
            let child = &self.children[i];
            proof {
                assert(all.take(i + 1).drop_last() =~= all.take(i as int));
                assert(all.take(i + 1).last() == child.view());
            }
            match &*child.element {
                SyntaxElement::Node(node) => {
                    push_text(node, &mut out);
                    assert(element_text(child.view().element) == elements_text(
                        node.view().children,
                    ));
                },
                SyntaxElement::Token(token) => {
                    out.append(&token.text);
                },
            }
            i += 1;
        }
        assert(all.take(i as int) =~= all);
        out
    }
}

} // verus!
