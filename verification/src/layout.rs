//! Where the elements of a tree lie: tokens tile the document, nodes cover
//! exactly their children, and every range is inside that of its parent.

use vstd::prelude::*;
use vstd::string::*;

use crate::incremental::{lemma_nonempty, lemma_run_pos, nonempty_tokens};
use crate::kind::SyntaxKind;
use crate::lexer::{
    lemma_token_text_concat, lemma_token_text_one, lex, lex_is_lossless, token_offset, token_text,
    TokenView,
};
use crate::parser::{
    add_children, base_of, close_all, close_top, initial_state, leaves, lemma_line_end,
    lemma_offset_end, line_end, line_is_end, line_blank, line_len, line_node, loose_tokens,
    parse_text, run, step, ChildView, ErrorView, FrameView, OpenerOracle, StateView,
    SyntaxErrorKind,
};
use crate::text::{blen, lemma_blen_bound, lemma_encode_concat};
use crate::tree::{ElementView, NodeView};

verus! {

/// The range of an element.
pub open spec fn extent(e: ElementView) -> (int, int) {
    match e {
        ElementView::Token(leaf) => (leaf.start, leaf.end),
        ElementView::Node(node) => (node.start, node.end),
    }
}

/// A token is as long as its text; a node is covered by its children. Neither
/// is empty.
pub open spec fn well_placed(e: ElementView) -> bool
    decreases e,
{
    match e {
        ElementView::Token(leaf) => leaf.start < leaf.end && leaf.end == leaf.start + blen(
            leaf.text,
        ),
        ElementView::Node(node) => node.start < node.end && tiled(
            node.children,
            node.start,
            node.end,
        ),
    }
}

/// The elements follow one another without gaps, from `start` to `end`.
pub open spec fn tiled(elements: Seq<ElementView>, start: int, end: int) -> bool
    decreases elements,
{
    if elements.len() == 0 {
        start == end
    } else {
        let last = elements.last();
        &&& extent(last).1 == end
        &&& well_placed(last)
        &&& tiled(elements.drop_last(), start, extent(last).0)
    }
}

/// The top-level elements follow one another without gaps, from 0 to `end`.
pub open spec fn document_tiled(children: Seq<ChildView>, end: int) -> bool
    decreases children.len(),
{
    if children.len() == 0 {
        end == 0
    } else {
        let last = children.last();
        &&& extent(last.element).0 == 0
        &&& well_placed(last.element)
        &&& last.offset + extent(last.element).1 == end
        &&& document_tiled(children.drop_last(), last.offset)
    }
}

/// A run of elements does not end before it starts.
pub proof fn lemma_tiled_order(elements: Seq<ElementView>, start: int, end: int)
    requires
        tiled(elements, start, end),
    ensures
        start <= end,
        elements.len() > 0 ==> start < end,
    decreases elements.len(),
{
    if elements.len() > 0 {
        assert(well_placed(elements.last()));
        lemma_tiled_order(elements.drop_last(), start, extent(elements.last()).0);
    }
}

/// Each element of a run starts where the one before it ends.
pub proof fn lemma_tiled_at(elements: Seq<ElementView>, start: int, end: int, i: int)
    requires
        tiled(elements, start, end),
        0 <= i < elements.len(),
    ensures
        well_placed(elements[i]),
        extent(elements[i]).0 == if i == 0 {
            start
        } else {
            extent(elements[i - 1]).1
        },
        extent(elements.last()).1 == end,
        start <= extent(elements[i]).0 < extent(elements[i]).1 <= end,
    decreases elements.len(),
{
    let last = elements.last();
    assert(well_placed(last));
    lemma_tiled_order(elements.drop_last(), start, extent(last).0);
    if i < elements.len() - 1 {
        lemma_tiled_at(elements.drop_last(), start, extent(last).0, i);
    } else if i > 0 {
        lemma_tiled_at(elements.drop_last(), start, extent(last).0, i - 1);
    } else {
        assert(elements.drop_last() =~= Seq::<ElementView>::empty());
    }
}

/// Each top-level element starts where the one before it ends.
pub proof fn lemma_document_at(children: Seq<ChildView>, end: int, i: int)
    requires
        document_tiled(children, end),
        0 <= i < children.len(),
    ensures
        well_placed(children[i].element),
        extent(children[i].element).0 == 0,
        children[i].offset == if i == 0 {
            0
        } else {
            children[i - 1].offset + extent(children[i - 1].element).1
        },
        0 <= children[i].offset < children[i].offset + extent(children[i].element).1 <= end,
        children.last().offset + extent(children.last().element).1 == end,
    decreases children.len(),
{
    let last = children.last();
    assert(well_placed(last.element));
    if i < children.len() - 1 {
        lemma_document_at(children.drop_last(), last.offset, i);
    } else if i > 0 {
        lemma_document_at(children.drop_last(), last.offset, i - 1);
    } else {
        assert(children.drop_last() =~= Seq::<ChildView>::empty());
    }
}

proof fn lemma_tiled_concat(
    a: Seq<ElementView>,
    b: Seq<ElementView>,
    start: int,
    middle: int,
    end: int,
)
    requires
        tiled(a, start, middle),
        tiled(b, middle, end),
    ensures
        tiled(a + b, start, end),
    decreases b.len(),
{
    if b.len() == 0 {
        assert(a + b =~= a);
    } else {
        assert((a + b).drop_last() =~= a + b.drop_last());
        lemma_tiled_concat(a, b.drop_last(), start, middle, extent(b.last()).0);
    }
}

proof fn lemma_tiled_one(e: ElementView)
    requires
        well_placed(e),
    ensures
        tiled(seq![e], extent(e).0, extent(e).1),
{
    assert(seq![e].drop_last() =~= Seq::<ElementView>::empty());
    reveal_with_fuel(tiled, 2);
}

proof fn lemma_offset_next(line: Seq<TokenView>, k: int)
    requires
        0 <= k < line.len(),
        nonempty_tokens(line),
    ensures
        token_offset(line, k + 1) == token_offset(line, k) + blen(line[k].text),
        blen(line[k].text) > 0,
{
    assert(line.take(k + 1) =~= line.take(k) + seq![line[k]]);
    lemma_token_text_concat(line.take(k), seq![line[k]]);
    lemma_token_text_one(line[k]);
    lemma_encode_concat(token_text(line.take(k)), line[k].text);
    lemma_blen_bound(line[k].text);
}

proof fn lemma_leaves_tiled(line: Seq<TokenView>, at: int, k: int)
    requires
        nonempty_tokens(line),
        0 <= k <= line.len(),
    ensures
        tiled(leaves(line, at).take(k), at, at + token_offset(line, k)),
    decreases k,
{
    if k == 0 {
        lemma_offset_end(line);
    } else {
        lemma_leaves_tiled(line, at, k - 1);
        lemma_offset_next(line, k - 1);
        assert(well_placed(leaves(line, at)[k - 1]));
        assert(leaves(line, at).take(k).drop_last() =~= leaves(line, at).take(k - 1));
    }
}

proof fn lemma_line_tiled(line: Seq<TokenView>, at: int)
    requires
        nonempty_tokens(line),
    ensures
        tiled(leaves(line, at), at, at + line_len(line)),
        line.len() > 0 ==> line_len(line) > 0,
{
    lemma_leaves_tiled(line, at, line.len() as int);
    lemma_offset_end(line);
    assert(leaves(line, at).take(line.len() as int) =~= leaves(line, at));
    lemma_tiled_order(leaves(line, at), at, at + line_len(line));
}

proof fn lemma_loose_tiled(done: Seq<ChildView>, line: Seq<TokenView>, pos: int, k: int)
    requires
        nonempty_tokens(line),
        0 <= k <= line.len(),
        document_tiled(done, pos),
    ensures
        document_tiled(done + loose_tokens(line, pos).take(k), pos + token_offset(line, k)),
    decreases k,
{
    let more = done + loose_tokens(line, pos).take(k);
    if k == 0 {
        lemma_offset_end(line);
        assert(more =~= done);
    } else {
        lemma_loose_tiled(done, line, pos, k - 1);
        lemma_offset_next(line, k - 1);
        assert(more.drop_last() =~= done + loose_tokens(line, pos).take(k - 1));
    }
}

/// Where the scope inside frame `i` ends so far.
spec fn frame_stop(st: StateView, i: int) -> int {
    if i + 1 < st.stack.len() {
        st.stack[i + 1].start
    } else {
        st.pos
    }
}

spec fn laid(st: StateView) -> bool {
    let base = if st.stack.len() == 0 {
        st.pos
    } else {
        base_of(st.stack)
    };
    &&& document_tiled(st.done, base)
    &&& forall|i: int|
        0 <= i < st.stack.len() ==> {
            &&& (#[trigger] st.stack[i]).start < frame_stop(st, i)
            &&& tiled(st.stack[i].children, st.stack[i].start - base, frame_stop(st, i) - base)
        }
}

/// Adding elements that follow the open scope keeps the layout.
proof fn lemma_add_laid(st: StateView, elements: Seq<ElementView>, end: int)
    requires
        laid(st),
        st.stack.len() > 0,
        st.pos <= end,
        tiled(elements, st.pos - base_of(st.stack), end - base_of(st.stack)),
    ensures
        laid(StateView { stack: add_children(st.stack, elements), pos: end, ..st }),
{
    let next = StateView { stack: add_children(st.stack, elements), pos: end, ..st };
    let n = st.stack.len() - 1;
    let base = base_of(st.stack);
    lemma_tiled_concat(
        st.stack[n].children,
        elements,
        st.stack[n].start - base,
        st.pos - base,
        end - base,
    );
    assert(base_of(next.stack) == base);
    assert forall|i: int| 0 <= i < next.stack.len() implies {
        &&& (#[trigger] next.stack[i]).start < frame_stop(next, i)
        &&& tiled(next.stack[i].children, next.stack[i].start - base, frame_stop(next, i) - base)
    } by {
        assert(st.stack[i].start < frame_stop(st, i));
        if i < n {
            assert(next.stack[i] == st.stack[i]);
            assert(next.stack[i + 1].start == st.stack[i + 1].start);
        }
    }
}

proof fn lemma_close_laid(st: StateView)
    requires
        laid(st),
        st.stack.len() > 0,
    ensures
        laid(close_top(st, st.pos)),
        close_top(st, st.pos).pos == st.pos,
{
    let n = st.stack.len() - 1;
    let top = st.stack[n];
    let base = base_of(st.stack);
    let node = ElementView::Node(
        NodeView {
            kind: top.kind,
            start: top.start - base,
            end: st.pos - base,
            children: top.children,
        },
    );
    let next = close_top(st, st.pos);
    assert(top.start < frame_stop(st, n));
    assert(well_placed(node));
    if n == 0 {
        assert(next.done.drop_last() =~= st.done);
    } else {
        let outer = StateView { stack: st.stack.drop_last(), pos: top.start, ..st };
        assert(base_of(outer.stack) == base);
        assert forall|i: int| 0 <= i < outer.stack.len() implies {
            &&& (#[trigger] outer.stack[i]).start < frame_stop(outer, i)
            &&& tiled(
                outer.stack[i].children,
                outer.stack[i].start - base,
                frame_stop(outer, i) - base,
            )
        } by {
            assert(st.stack[i].start < frame_stop(st, i));
            if i + 1 < n {
                assert(outer.stack[i + 1] == st.stack[i + 1]);
            } else {
                assert(i + 1 == n);
            }
            assert(frame_stop(outer, i) == frame_stop(st, i));
        }
        lemma_tiled_one(node);
        lemma_add_laid(outer, seq![node], st.pos);
    }
}

proof fn lemma_open_laid(st: StateView, frame: FrameView, end: int)
    requires
        laid(st),
        frame.start == st.pos < end,
        ({
            let base = if st.stack.len() == 0 {
                st.pos
            } else {
                base_of(st.stack)
            };
            tiled(frame.children, st.pos - base, end - base)
        }),
    ensures
        laid(StateView { stack: st.stack.push(frame), pos: end, ..st }),
{
    let next = StateView { stack: st.stack.push(frame), pos: end, ..st };
    assert forall|i: int| 0 <= i < next.stack.len() implies {
        &&& (#[trigger] next.stack[i]).start < frame_stop(next, i)
        &&& tiled(
            next.stack[i].children,
            next.stack[i].start - base_of(next.stack),
            frame_stop(next, i) - base_of(next.stack),
        )
    } by {
        if i < st.stack.len() {
            assert(st.stack[i].start < frame_stop(st, i));
            assert(next.stack[i] == st.stack[i]);
            assert(frame_stop(next, i) == frame_stop(st, i));
        }
    }
}

proof fn lemma_step_laid<O: OpenerOracle>(oracle: O, st: StateView, line: Seq<TokenView>)
    requires
        laid(st),
        nonempty_tokens(line),
        line.len() > 0,
    ensures
        laid(step(oracle, st, line)),
{
    let next = step(oracle, st, line);
    let base = if st.stack.len() > 0 {
        base_of(st.stack)
    } else {
        st.pos
    };
    let end = st.pos + line_len(line);
    let elements = leaves(line, st.pos - base);
    lemma_line_tiled(line, st.pos - base);
    if line_blank(line) {
        if st.stack.len() == 0 {
            lemma_loose_tiled(st.done, line, st.pos, line.len() as int);
            lemma_offset_end(line);
            assert(loose_tokens(line, st.pos).take(line.len() as int) =~= loose_tokens(
                line,
                st.pos,
            ));
        } else {
            lemma_add_laid(st, elements, end);
        }
    } else if line_is_end(line) {
        if st.stack.len() == 0 {
            let child = ChildView {
                offset: st.pos,
                element: line_node(SyntaxKind::ERROR, line, 0),
            };
            assert(st.done.push(child).drop_last() =~= st.done);
        } else {
            lemma_add_laid(st, elements, end);
            let grown = StateView {
                stack: add_children(st.stack, elements),
                pos: end,
                ..st
            };
            lemma_close_laid(grown);
            assert(next == close_top(grown, end));
        }
    } else if next.stack.len() == st.stack.len() + 1 {
        let frame = next.stack.last();
        lemma_open_laid(st, frame, end);
        assert(next == (StateView { stack: st.stack.push(frame), pos: end, ..st }));
    } else if st.stack.len() == 0 {
        let child = ChildView { offset: st.pos, element: line_node(SyntaxKind::FIELD, line, 0) };
        assert(st.done.push(child).drop_last() =~= st.done);
    } else {
        let field = line_node(SyntaxKind::FIELD, line, st.pos - base);
        lemma_tiled_one(field);
        lemma_add_laid(st, seq![field], end);
    }
}

proof fn lemma_run_laid<O: OpenerOracle>(oracle: O, tokens: Seq<TokenView>, i: int, st: StateView)
    requires
        laid(st),
        nonempty_tokens(tokens),
        0 <= i <= tokens.len(),
    ensures
        laid(run(oracle, tokens, i, st)),
    decreases tokens.len() - i,
{
    if i < tokens.len() {
        let end = line_end(tokens, i);
        lemma_line_end(tokens, i);
        let line = tokens.subrange(i, end);
        lemma_step_laid(oracle, st, line);
        lemma_run_laid(oracle, tokens, end, step(oracle, st, line));
    }
}

proof fn lemma_close_all_laid(st: StateView)
    requires
        laid(st),
    ensures
        document_tiled(close_all(st).done, st.pos),
    decreases st.stack.len(),
{
    if st.stack.len() > 0 {
        let error = ErrorView {
            kind: SyntaxErrorKind::UnterminatedBlock,
            start: st.stack.last().start,
            end: st.pos,
        };
        let reported = StateView { errors: st.errors.push(error), ..st };
        assert forall|i: int| 0 <= i < reported.stack.len() implies {
            &&& (#[trigger] reported.stack[i]).start < frame_stop(reported, i)
            &&& tiled(
                reported.stack[i].children,
                reported.stack[i].start - base_of(reported.stack),
                frame_stop(reported, i) - base_of(reported.stack),
            )
        } by {
            assert(st.stack[i].start < frame_stop(st, i));
            assert(frame_stop(st, i) == frame_stop(reported, i));
        }
        lemma_close_laid(reported);
        lemma_close_all_laid(close_top(reported, st.pos));
    }
}

/// Law: the elements of a parse tile the text. Every token lies where its text
/// does, and every node covers exactly its children.
pub proof fn parse_tiles_the_text<O: OpenerOracle>(oracle: O, text: Seq<char>)
    ensures
        document_tiled(parse_text(oracle, text).children, blen(text) as int),
{
    reveal(parse_text);
    let toks = lex(text);
    lex_is_lossless(text);
    lemma_nonempty(text);
    lemma_offset_end(toks);
    lemma_run_pos(oracle, toks, 0, initial_state());
    lemma_run_laid(oracle, toks, 0, initial_state());
    lemma_close_all_laid(run(oracle, toks, 0, initial_state()));
}

} // verus!
