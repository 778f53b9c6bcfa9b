//! Error-recovering parser that turns the token stream into a lossless tree.
//!
//! The grammar is line-oriented. A line either sets a field or opens a nested,
//! `End`-terminated scope (a top-level block, a module like `Behavior = ...`,
//! or a sub-block like `ConditionState = ...`). Whether a given line opens a
//! scope is decided by an [`OpenerOracle`]; `End` always closes the nearest
//! open scope. Every byte of input appears exactly once in the tree.
//! Unterminated scopes are left open to end-of-file and reported.

use std::sync::Arc;

use vstd::prelude::*;
use vstd::string::*;

use crate::kind::{trivia_kind, SyntaxKind};
use crate::lexer::{
    byte_len, describes, lex, lex_is_lossless, lemma_token_text_concat, lemma_token_text_one,
    token_offset, token_text, tokenize, Token, TokenView,
};
use crate::text::{
    blen, byte_at, lemma_byte_at_split, lemma_encode_concat, same, same_ignoring_case, slice,
};
use crate::tree::{
    views, ElementView, LeafView, NodeView, SyntaxElement, SyntaxNode, SyntaxToken,
};

verus! {

/// The text of an optional string.
pub open spec fn opt_text(s: Option<&str>) -> Option<Seq<char>> {
    match s {
        Some(s) => Some(s@),
        None => None,
    }
}

/// Decides whether a line opens a new `End`-terminated scope.
pub trait OpenerOracle {
    /// Whether a line inside the scope headed `enclosing` opens a nested scope.
    spec fn opens(&self, enclosing: Option<Seq<char>>, head: Seq<char>, has_equals: bool) -> bool;

    /// Whether a line at file scope opens a block.
    spec fn opens_file(&self, head: Seq<char>) -> bool;

    /// Decide whether a line opens a nested scope. `enclosing` is the head
    /// keyword of the innermost open scope (`None` at file scope), `head` is
    /// the first bare token on the line and `has_equals` is whether the line
    /// contains an `=`.
    fn opens_scope(&self, enclosing: Option<&str>, head: &str, has_equals: bool) -> (opens: bool)
        ensures
            opens == self.opens(opt_text(enclosing), head@, has_equals),
    ;

    /// Decide whether a line at file scope opens a block (`true`) or is a
    /// single-line directive (`false`).
    fn opens_at_file_scope(&self, head: &str) -> (opens: bool)
        ensures
            opens == self.opens_file(head@),
    ;
}

/// Whether some string of `items` spells `text`.
pub open spec fn holds_text(items: Seq<String>, text: Seq<char>) -> bool {
    exists|i: int| 0 <= i < items.len() && (#[trigger] items[i])@ == text
}

/// Whether `text` is one of `items`.
pub fn contains_text(items: &Vec<String>, text: &str) -> (found: bool)
    ensures
        found == holds_text(items@, text@),
{
    let mut i: usize = 0;
    while i < items.len()
        invariant
            i <= items@.len(),
            forall|j: int| 0 <= j < i ==> (#[trigger] items@[j])@ != text@,
        decreases items@.len() - i,
    {
        if same(items[i].as_str(), text) {
            assert(items@[i as int]@ == text@);
            return true;
        }
        i += 1;
    }
    false
}

/// An oracle backed by an explicit keyword list. Keywords open scopes anywhere.
#[derive(Debug)]
pub struct FixedOpeners {
    pub keywords: Vec<String>,
}

impl FixedOpeners {
    pub fn new(keywords: &[&str]) -> (openers: Self)
        ensures
            openers.keywords@.len() == keywords@.len(),
            forall|i: int|
                0 <= i < keywords@.len() ==> (#[trigger] openers.keywords@[i])@ == keywords@[i]@,
    {
        let mut out: Vec<String> = Vec::new();
        let mut i: usize = 0;
        while i < keywords.len()
            invariant
                i <= keywords@.len(),
                out@.len() == i,
                forall|j: int| 0 <= j < i ==> (#[trigger] out@[j])@ == keywords@[j]@,
            decreases keywords@.len() - i,
        {
            out.push(keywords[i].to_owned());
            i += 1;
        }
        FixedOpeners { keywords: out }
    }
}

impl OpenerOracle for FixedOpeners {
    open spec fn opens(
        &self,
        enclosing: Option<Seq<char>>,
        head: Seq<char>,
        has_equals: bool,
    ) -> bool {
        holds_text(self.keywords@, head)
    }

    open spec fn opens_file(&self, head: Seq<char>) -> bool {
        true
    }

    fn opens_scope(&self, _enclosing: Option<&str>, head: &str, _has_equals: bool) -> (opens: bool) {
        contains_text(&self.keywords, head)
    }

    fn opens_at_file_scope(&self, _head: &str) -> (opens: bool) {
        true
    }
}

/// A no-op oracle: nothing opens a nested scope.
#[derive(Debug)]
pub struct NoOpeners;

impl OpenerOracle for NoOpeners {
    open spec fn opens(
        &self,
        enclosing: Option<Seq<char>>,
        head: Seq<char>,
        has_equals: bool,
    ) -> bool {
        false
    }

    open spec fn opens_file(&self, head: Seq<char>) -> bool {
        true
    }

    fn opens_scope(&self, _enclosing: Option<&str>, _head: &str, _has_equals: bool) -> (opens:
        bool) {
        false
    }

    fn opens_at_file_scope(&self, _head: &str) -> (opens: bool) {
        true
    }
}

/// What a structural parse error is about.
#[derive(Debug, Clone, Copy, PartialEq, Eq, Structural)]
pub enum SyntaxErrorKind {
    /// An `End` line with no scope to close.
    StrayEnd,
    /// A scope that is still open at the end of the file.
    UnterminatedBlock,
}

/// A structural (not semantic) parse error, with the byte range it concerns.
#[derive(Debug, PartialEq, Eq)]
pub struct SyntaxError {
    pub message: String,
    pub start: usize,
    pub end: usize,
    pub kind: SyntaxErrorKind,
}

#[verifier::ext_equal]
pub struct ErrorView {
    pub kind: SyntaxErrorKind,
    pub start: int,
    pub end: int,
}

/// The message of a structural error.
pub open spec fn error_message(kind: SyntaxErrorKind) -> Seq<char> {
    match kind {
        SyntaxErrorKind::StrayEnd => "`End` without a matching block"@,
        SyntaxErrorKind::UnterminatedBlock => "block is not terminated with `End`"@,
    }
}

/// `errors` are the structural errors `view`, with their messages.
pub open spec fn errors_match(errors: Seq<SyntaxError>, view: Seq<ErrorView>) -> bool {
    &&& errors.len() == view.len()
    &&& forall|i: int| #![trigger errors[i]]
        0 <= i < errors.len() ==> {
            &&& errors[i].kind == view[i].kind
            &&& errors[i].start == view[i].start
            &&& errors[i].end == view[i].end
            &&& errors[i].message@ == error_message(view[i].kind)
        }
}

impl SyntaxError {
    pub(crate) fn of(kind: SyntaxErrorKind, start: usize, end: usize) -> (error: Self)
        ensures
            error.kind == kind,
            error.start == start,
            error.end == end,
            error.message@ == error_message(kind),
    {
        let message = match kind {
            SyntaxErrorKind::StrayEnd => "`End` without a matching block".to_owned(),
            SyntaxErrorKind::UnterminatedBlock => "block is not terminated with `End`".to_owned(),
        };
        SyntaxError { message, start, end, kind }
    }
}

// ---------------------------------------------------------------------------
// Lines
// ---------------------------------------------------------------------------
/// The index just past the line that starts at token `i`: one past its
/// `NEWLINE`, or the end of the tokens.
pub open spec fn line_end(tokens: Seq<TokenView>, i: int) -> int
    decreases tokens.len() - i,
{
    if i < 0 || i >= tokens.len() {
        i
    } else if tokens[i].kind == SyntaxKind::NEWLINE {
        i + 1
    } else {
        line_end(tokens, i + 1)
    }
}

/// The first bare word of a line.
pub open spec fn line_head(line: Seq<TokenView>) -> Option<Seq<char>>
    decreases line.len(),
{
    if line.len() == 0 {
        None
    } else if line_head(line.drop_last()) is Some {
        line_head(line.drop_last())
    } else if line.last().kind == SyntaxKind::WORD {
        Some(line.last().text)
    } else {
        None
    }
}

pub open spec fn line_has_equals(line: Seq<TokenView>) -> bool {
    exists|i: int| 0 <= i < line.len() && (#[trigger] line[i]).kind == SyntaxKind::EQUALS
}

/// A line without significant tokens.
pub open spec fn line_blank(line: Seq<TokenView>) -> bool {
    forall|i: int| 0 <= i < line.len() ==> trivia_kind((#[trigger] line[i]).kind)
}

/// A line whose first word is `End`, in any case.
pub open spec fn line_is_end(line: Seq<TokenView>) -> bool {
    match line_head(line) {
        Some(head) => same_ignoring_case(head, "End"@),
        None => false,
    }
}

/// The bytes of a line.
pub open spec fn line_len(line: Seq<TokenView>) -> int {
    blen(token_text(line)) as int
}

// ---------------------------------------------------------------------------
// The parse as a function of the tokens
// ---------------------------------------------------------------------------
/// A top-level element and its offset in the document.
#[verifier::ext_equal]
pub struct ChildView {
    pub offset: int,
    pub element: ElementView,
}

/// An open scope.
#[verifier::ext_equal]
pub struct FrameView {
    pub kind: SyntaxKind,
    pub start: int,
    pub head: Seq<char>,
    pub children: Seq<ElementView>,
}

/// The state of the parse between two lines.
#[verifier::ext_equal]
pub struct StateView {
    pub done: Seq<ChildView>,
    pub stack: Seq<FrameView>,
    pub errors: Seq<ErrorView>,
    pub pos: int,
}

pub open spec fn initial_state() -> StateView {
    StateView { done: Seq::empty(), stack: Seq::empty(), errors: Seq::empty(), pos: 0 }
}

/// The tokens of a line as tree elements, from offset `at` on.
pub open spec fn leaves(line: Seq<TokenView>, at: int) -> Seq<ElementView> {
    Seq::new(
        line.len(),
        |k: int|
            ElementView::Token(
                LeafView {
                    kind: line[k].kind,
                    text: line[k].text,
                    start: at + token_offset(line, k),
                    end: at + token_offset(line, k + 1),
                },
            ),
    )
}

/// A line wrapped in a node of its own.
pub open spec fn line_node(kind: SyntaxKind, line: Seq<TokenView>, at: int) -> ElementView {
    ElementView::Node(
        NodeView { kind, start: at, end: at + line_len(line), children: leaves(line, at) },
    )
}

/// The tokens of a blank line at file scope, each a top-level element.
pub open spec fn loose_tokens(line: Seq<TokenView>, pos: int) -> Seq<ChildView> {
    Seq::new(
        line.len(),
        |k: int|
            ChildView {
                offset: pos + token_offset(line, k),
                element: ElementView::Token(
                    LeafView {
                        kind: line[k].kind,
                        text: line[k].text,
                        start: 0,
                        end: token_offset(line, k + 1) - token_offset(line, k),
                    },
                ),
            },
    )
}

/// The offset of the outermost open scope.
pub open spec fn base_of(stack: Seq<FrameView>) -> int {
    stack[0].start
}

/// Adds elements to the innermost open scope.
pub open spec fn add_children(stack: Seq<FrameView>, elements: Seq<ElementView>) -> Seq<FrameView> {
    stack.drop_last().push(
        FrameView { children: stack.last().children + elements, ..stack.last() },
    )
}

/// Closes the innermost open scope at byte `end`.
pub open spec fn close_top(st: StateView, end: int) -> StateView {
    let top = st.stack.last();
    let base = base_of(st.stack);
    let node = ElementView::Node(
        NodeView {
            kind: top.kind,
            start: top.start - base,
            end: end - base,
            children: top.children,
        },
    );
    if st.stack.len() == 1 {
        StateView {
            done: st.done.push(ChildView { offset: base, element: node }),
            stack: Seq::empty(),
            ..st
        }
    } else {
        StateView { stack: add_children(st.stack.drop_last(), seq![node]), ..st }
    }
}

/// Opens a scope at a line.
pub open spec fn open_top(
    st: StateView,
    kind: SyntaxKind,
    line: Seq<TokenView>,
) -> StateView {
    let base = if st.stack.len() == 0 {
        st.pos
    } else {
        base_of(st.stack)
    };
    let head = match line_head(line) {
        Some(h) => h,
        None => Seq::empty(),
    };
    StateView {
        stack: st.stack.push(
            FrameView { kind, start: st.pos, head, children: leaves(line, st.pos - base) },
        ),
        ..st
    }
}

/// Parses one line.
pub open spec fn step<O: OpenerOracle>(
    oracle: O,
    st: StateView,
    line: Seq<TokenView>,
) -> StateView {
    let end = st.pos + line_len(line);
    let next = if line_blank(line) {
        if st.stack.len() == 0 {
            StateView { done: st.done + loose_tokens(line, st.pos), ..st }
        } else {
            StateView {
                stack: add_children(st.stack, leaves(line, st.pos - base_of(st.stack))),
                ..st
            }
        }
    } else if line_is_end(line) {
        if st.stack.len() == 0 {
            StateView {
                done: st.done.push(
                    ChildView {
                        offset: st.pos,
                        element: line_node(SyntaxKind::ERROR, line, 0),
                    },
                ),
                errors: st.errors.push(
                    ErrorView { kind: SyntaxErrorKind::StrayEnd, start: st.pos, end },
                ),
                ..st
            }
        } else {
            close_top(
                StateView {
                    stack: add_children(st.stack, leaves(line, st.pos - base_of(st.stack))),
                    ..st
                },
                end,
            )
        }
    } else if st.stack.len() == 0 {
        if line_head(line) is None || oracle.opens_file(line_head(line)->0) {
            open_top(st, SyntaxKind::BLOCK, line)
        } else {
            StateView {
                done: st.done.push(
                    ChildView {
                        offset: st.pos,
                        element: line_node(SyntaxKind::FIELD, line, 0),
                    },
                ),
                ..st
            }
        }
    } else if line_head(line) is Some && oracle.opens(
        Some(st.stack.last().head),
        line_head(line)->0,
        line_has_equals(line),
    ) {
        open_top(st, SyntaxKind::MODULE, line)
    } else {
        StateView {
            stack: add_children(
                st.stack,
                seq![line_node(SyntaxKind::FIELD, line, st.pos - base_of(st.stack))],
            ),
            ..st
        }
    };
    StateView { pos: end, ..next }
}

/// Parses the lines from token `i` on.
pub open spec fn run<O: OpenerOracle>(
    oracle: O,
    tokens: Seq<TokenView>,
    i: int,
    st: StateView,
) -> StateView
    decreases tokens.len() - i,
{
    if 0 <= i < tokens.len() {
        let end = line_end(tokens, i);
        proof {
            lemma_line_end(tokens, i);
        }
        run(oracle, tokens, end, step(oracle, st, tokens.subrange(i, end)))
    } else {
        st
    }
}

/// Closes every scope left open at the end of the file, innermost first, with
/// an error for each.
pub open spec fn close_all(st: StateView) -> StateView
    decreases st.stack.len(),
{
    if st.stack.len() == 0 {
        st
    } else {
        let error = ErrorView {
            kind: SyntaxErrorKind::UnterminatedBlock,
            start: st.stack.last().start,
            end: st.pos,
        };
        close_all(close_top(StateView { errors: st.errors.push(error), ..st }, st.pos))
    }
}

/// The contents of a parse: the top-level elements and the errors.
#[verifier::ext_equal]
pub struct ParseView {
    pub children: Seq<ChildView>,
    pub errors: Seq<ErrorView>,
    pub len: int,
}

/// The parse of a token sequence.
pub open spec fn parse_tokens<O: OpenerOracle>(oracle: O, tokens: Seq<TokenView>) -> ParseView {
    let st = close_all(run(oracle, tokens, 0, initial_state()));
    ParseView { children: st.done, errors: st.errors, len: st.pos }
}

/// The parse of a text.
#[verifier::opaque]
pub open spec fn parse_text<O: OpenerOracle>(oracle: O, text: Seq<char>) -> ParseView {
    parse_tokens(oracle, lex(text))
}

pub proof fn lemma_line_end(tokens: Seq<TokenView>, i: int)
    requires
        0 <= i < tokens.len(),
    ensures
        i < line_end(tokens, i) <= tokens.len(),
        forall|k: int| i <= k < line_end(tokens, i) - 1 ==> (#[trigger] tokens[k]).kind
            != SyntaxKind::NEWLINE,
        line_end(tokens, i) < tokens.len() ==> tokens[line_end(tokens, i) - 1].kind
            == SyntaxKind::NEWLINE,
    decreases tokens.len() - i,
{
    reveal_with_fuel(line_end, 2);
    if tokens[i].kind != SyntaxKind::NEWLINE && i + 1 < tokens.len() {
        lemma_line_end(tokens, i + 1);
    }
}

/// Where token `k` of a text lies in it.
pub proof fn lemma_token_slice(s: Seq<char>, k: int)
    requires
        0 <= k < lex(s).len(),
    ensures
        ({
            let i = token_text(lex(s).take(k)).len() as int;
            let j = token_text(lex(s).take(k + 1)).len() as int;
            &&& 0 <= i <= j <= s.len()
            &&& s.subrange(i, j) == lex(s)[k].text
            &&& token_offset(lex(s), k) == byte_at(s, i)
            &&& token_offset(lex(s), k + 1) == byte_at(s, j)
        }),
{
    let toks = lex(s);
    lex_is_lossless(s);
    lemma_token_text_concat(toks.take(k), toks.skip(k));
    lemma_token_text_concat(toks.take(k + 1), toks.skip(k + 1));
    assert(toks.take(k) + toks.skip(k) =~= toks);
    assert(toks.take(k + 1) + toks.skip(k + 1) =~= toks);
    lemma_token_text_concat(toks.take(k), seq![toks[k]]);
    lemma_token_text_one(toks[k]);
    assert(toks.take(k + 1) =~= toks.take(k) + seq![toks[k]]);
    let i = token_text(toks.take(k)).len() as int;
    let j = token_text(toks.take(k + 1)).len() as int;
    assert(s.take(i) =~= token_text(toks.take(k)));
    assert(s.take(j) =~= token_text(toks.take(k + 1)));
    assert(s.subrange(i, j) =~= toks[k].text);
}

/// Offsets inside a run of tokens add up.
pub proof fn lemma_offset_sub(toks: Seq<TokenView>, a: int, b: int, k: int)
    requires
        0 <= a <= k <= b <= toks.len(),
    ensures
        token_offset(toks, k) == token_offset(toks, a) + token_offset(toks.subrange(a, b), k - a),
        token_offset(toks, a) <= token_offset(toks, k),
{
    let line = toks.subrange(a, b);
    assert(toks.take(k) =~= toks.take(a) + line.take(k - a));
    lemma_token_text_concat(toks.take(a), line.take(k - a));
    lemma_encode_concat(token_text(toks.take(a)), token_text(line.take(k - a)));
}

/// The offset of the end of a token sequence is its byte length.
pub proof fn lemma_offset_end(toks: Seq<TokenView>)
    ensures
        token_offset(toks, toks.len() as int) == line_len(toks),
        token_offset(toks, 0) == 0,
{
    assert(toks.take(toks.len() as int) =~= toks);
    assert(toks.take(0) =~= Seq::<TokenView>::empty());
}

// ---------------------------------------------------------------------------
// The parser
// ---------------------------------------------------------------------------
/// A top-level element of a document and the byte offset it starts at.
#[derive(Debug)]
pub struct Child {
    pub offset: u32,
    pub element: Arc<SyntaxElement>,
}

impl Child {
    pub open spec fn view(&self) -> ChildView {
        ChildView { offset: self.offset as int, element: self.element.view() }
    }
}

pub open spec fn child_views(children: Seq<Child>) -> Seq<ChildView> {
    Seq::new(children.len(), |i: int| children[i].view())
}

/// The result of a parse: the top-level elements of the tree, in document
/// order, plus recovery diagnostics.
#[derive(Debug)]
pub struct Parse {
    pub children: Vec<Child>,
    pub errors: Vec<SyntaxError>,
    /// The length of the document in bytes.
    pub len: u32,
}

impl Parse {
    /// The parse holds what `view` describes.
    pub open spec fn holds(&self, view: ParseView) -> bool {
        &&& child_views(self.children@) == view.children
        &&& errors_match(self.errors@, view.errors)
        &&& self.len == view.len
    }
}

/// An open scope: the head keyword decides which lines open scopes inside it.
struct Frame {
    kind: SyntaxKind,
    start: usize,
    head: String,
    children: Vec<SyntaxElement>,
}

impl Frame {
    spec fn view(&self) -> FrameView {
        FrameView {
            kind: self.kind,
            start: self.start as int,
            head: self.head@,
            children: views(self.children@),
        }
    }
}

spec fn frame_views(frames: Seq<Frame>) -> Seq<FrameView> {
    Seq::new(frames.len(), |i: int| frames[i].view())
}

/// Every open scope starts between the outermost one and the current line.
spec fn ordered(st: StateView) -> bool {
    &&& 0 <= st.pos
    &&& forall|i: int|
        0 <= i < st.stack.len() ==> base_of(st.stack) <= (#[trigger] st.stack[i]).start <= st.pos
    &&& st.stack.len() > 0 ==> 0 <= base_of(st.stack)
}

/// A single logical line: the tokens `[start, end)` and the classification
/// needed to drive scoping.
struct Line {
    end: usize,
    /// First bare WORD on the line, if any.
    head: Option<usize>,
    has_equals: bool,
    /// True if the line has no significant tokens.
    blank: bool,
}

struct Parser {
    done: Vec<Child>,
    stack: Vec<Frame>,
    errors: Vec<SyntaxError>,
}

impl Parser {
    spec fn holds(&self, st: StateView) -> bool {
        &&& child_views(self.done@) == st.done
        &&& frame_views(self.stack@) == st.stack
        &&& errors_match(self.errors@, st.errors)
        &&& ordered(st)
    }
}

/// The text of token `k`.
fn text_at<'a>(src: &'a str, tokens: &Vec<Token>, k: usize) -> (out: &'a str)
    requires
        describes(tokens@, lex(src@)),
        k < tokens@.len(),
    ensures
        out@ == lex(src@)[k as int].text,
{
    proof {
        lemma_token_slice(src@, k as int);
    }
    let ghost toks = lex(src@);
    slice(
        src,
        tokens[k].start,
        tokens[k].end,
        Ghost(token_text(toks.take(k as int)).len() as int),
        Ghost(token_text(toks.take(k + 1)).len() as int),
    )
}

/// Group the tokens from `start` on into one line.
fn scan_line(src: &str, tokens: &Vec<Token>, start: usize) -> (line: Line)
    requires
        describes(tokens@, lex(src@)),
        start < tokens@.len(),
    ensures
        line.end == line_end(lex(src@), start as int),
        start < line.end <= tokens@.len(),
        ({
            let view = lex(src@).subrange(start as int, line.end as int);
            &&& line.has_equals == line_has_equals(view)
            &&& line.blank == line_blank(view)
            &&& line.head is Some == line_head(view) is Some
            &&& line.head is Some ==> line.head->0 < tokens@.len() && lex(
                src@,
            )[line.head->0 as int].text == line_head(view)->0
        }),
{
    let ghost toks = lex(src@);
    proof {
        lemma_line_end(toks, start as int);
    }
    let mut i: usize = start;
    let mut head: Option<usize> = None;
    let mut has_equals = false;
    let mut blank = true;
    let mut newline = false;
    while i < tokens.len() && !newline
        invariant
            toks == lex(src@),
            describes(tokens@, toks),
            start <= i <= tokens@.len(),
            i == start ==> !newline,
            newline ==> line_end(toks, start as int) == i,
            !newline ==> line_end(toks, start as int) == line_end(toks, i as int),
            has_equals == line_has_equals(toks.subrange(start as int, i as int)),
            blank == line_blank(toks.subrange(start as int, i as int)),
            head is Some == line_head(toks.subrange(start as int, i as int)) is Some,
            head is Some ==> head->0 < tokens@.len() && toks[head->0 as int].text == line_head(
                toks.subrange(start as int, i as int),
            )->0,
        decreases tokens@.len() - i,
    {
        let tok = tokens[i];
        proof {
            let before = toks.subrange(start as int, i as int);
            let after = toks.subrange(start as int, i + 1);
            assert(after.drop_last() =~= before);
            assert(after.last() == toks[i as int]);
            assert(forall|k: int| 0 <= k < before.len() ==> before[k] == #[trigger] after[k]);
            assert(line_has_equals(after) == (line_has_equals(before) || tok.kind
                == SyntaxKind::EQUALS)) by {
                if tok.kind == SyntaxKind::EQUALS {
                    assert(after[i - start].kind == SyntaxKind::EQUALS);
                }
                if line_has_equals(before) {
                    let k = choose|k: int|
                        0 <= k < before.len() && (#[trigger] before[k]).kind == SyntaxKind::EQUALS;
                    assert(after[k].kind == SyntaxKind::EQUALS);
                }
            }
            assert(line_blank(after) == (line_blank(before) && trivia_kind(tok.kind))) by {
                if line_blank(after) {
                    assert forall|k: int| 0 <= k < before.len() implies trivia_kind(
                        (#[trigger] before[k]).kind,
                    ) by {
                        assert(after[k] == before[k]);
                    }
                    assert(trivia_kind(after[i - start].kind));
                }
            }
        }
        match tok.kind {
            SyntaxKind::NEWLINE => {
                newline = true;
            },
            SyntaxKind::WHITESPACE | SyntaxKind::COMMENT => {},
            SyntaxKind::EQUALS => {
                has_equals = true;
                blank = false;
            },
            SyntaxKind::WORD => {
                blank = false;
                if head.is_none() {
                    head = Some(i);
                }
            },
            _ => {
                blank = false;
            },
        }
        i += 1;
    }
    Line { end: i, head, has_equals, blank }
}

/// The tokens `[start, end)` as tree elements, with offsets relative to `base`.
fn line_elements(src: &str, tokens: &Vec<Token>, start: usize, end: usize, base: usize) -> (out:
    Vec<SyntaxElement>)
    requires
        describes(tokens@, lex(src@)),
        blen(src@) <= u32::MAX,
        start <= end <= tokens@.len(),
        base <= token_offset(lex(src@), start as int),
    ensures
        views(out@) == leaves(
            lex(src@).subrange(start as int, end as int),
            token_offset(lex(src@), start as int) - base,
        ),
{
    let ghost toks = lex(src@);
    let ghost line = toks.subrange(start as int, end as int);
    let ghost at = token_offset(toks, start as int) - base;
    let mut out: Vec<SyntaxElement> = Vec::new();
    let mut k: usize = start;
    while k < end
        invariant
            toks == lex(src@),
            line == toks.subrange(start as int, end as int),
            at == token_offset(toks, start as int) - base,
            describes(tokens@, toks),
            blen(src@) <= u32::MAX,
            start <= k <= end <= tokens@.len(),
            base <= token_offset(toks, start as int),
            out@.len() == k - start,
            forall|j: int| 0 <= j < out@.len() ==> (#[trigger] out@[j]).view() == leaves(line, at)[j],
        decreases end - k,
    {
        proof {
            lemma_offset_sub(toks, start as int, end as int, k as int);
            lemma_offset_sub(toks, start as int, end as int, k + 1);
            lemma_token_slice(src@, k as int);
            lemma_byte_at_split(
                src@,
                token_text(toks.take(k as int)).len() as int,
                token_text(toks.take(k + 1)).len() as int,
            );
            lemma_byte_at_split(
                src@,
                token_text(toks.take(k + 1)).len() as int,
                src@.len() as int,
            );
        }
        let tok = tokens[k];
        out.push(
            SyntaxElement::Token(
                SyntaxToken {
                    kind: tok.kind,
                    text: text_at(src, tokens, k).to_owned(),
                    start: (tok.start - base) as u32,
                    end: (tok.end - base) as u32,
                },
            ),
        );
        k += 1;
    }
    proof {
        assert(views(out@) =~= leaves(line, at));
    }
    out
}

proof fn lemma_views_concat(a: Seq<SyntaxElement>, b: Seq<SyntaxElement>)
    ensures
        views(a + b) == views(a) + views(b),
{
    assert(views(a + b) =~= views(a) + views(b));
}

impl Parser {
    /// Adds elements to the innermost open scope.
    fn add(&mut self, elements: Vec<SyntaxElement>, Ghost(st): Ghost<StateView>)
        requires
            old(self).holds(st),
            old(self).stack@.len() > 0,
        ensures
            final(self).holds(
                StateView { stack: add_children(st.stack, views(elements@)), ..st },
            ),
            final(self).stack@.len() == old(self).stack@.len(),
    {
        let mut more = elements;
        let ghost added = more@;
        let mut top = self.stack.pop().unwrap();
        let ghost had = top.children@;
        proof {
            assert(st.stack.last() == old(self).stack@.last().view());
        }
        top.children.append(&mut more);
        proof {
            lemma_views_concat(had, added);
        }
        self.stack.push(top);
        proof {
            assert(frame_views(self.stack@) =~= add_children(st.stack, views(added)));
            let next = StateView { stack: add_children(st.stack, views(added)), ..st };
            assert forall|i: int| 0 <= i < next.stack.len() implies base_of(next.stack) <= (
            #[trigger] next.stack[i]).start <= next.pos by {
                assert(next.stack[i].start == st.stack[i].start);
                assert(next.stack[0].start == st.stack[0].start);
            }
        }
    }

    /// Closes the innermost open scope at byte `end`.
    fn close(&mut self, end: usize, Ghost(st): Ghost<StateView>)
        requires
            old(self).holds(st),
            old(self).stack@.len() > 0,
            st.pos <= end <= u32::MAX,
        ensures
            final(self).holds(close_top(st, end as int)),
            final(self).stack@.len() == old(self).stack@.len() - 1,
    {
        proof {
            assert(st.stack[0] == self.stack@[0].view());
            assert(st.stack.last() == self.stack@.last().view());
            assert(st.stack[st.stack.len() - 1].start <= st.pos);
        }
        let base: usize = self.stack[0].start;
        let top = self.stack.pop().unwrap();
        let node = SyntaxElement::Node(
            SyntaxNode {
                kind: top.kind,
                start: (top.start - base) as u32,
                end: (end - base) as u32,
                children: top.children,
            },
        );
        if self.stack.len() == 0 {
            self.done.push(Child { offset: base as u32, element: Arc::new(node) });
            proof {
                assert(child_views(self.done@) =~= close_top(st, end as int).done);
                assert(frame_views(self.stack@) =~= close_top(st, end as int).stack);
            }
        } else {
            let ghost mid = StateView { stack: st.stack.drop_last(), ..st };
            proof {
                assert(frame_views(self.stack@) =~= mid.stack);
                assert forall|i: int| 0 <= i < mid.stack.len() implies base_of(mid.stack) <= (
                #[trigger] mid.stack[i]).start <= mid.pos by {
                    assert(mid.stack[i] == st.stack[i]);
                }
            }
            let ghost view = node.view();
            let mut elements: Vec<SyntaxElement> = Vec::new();
            elements.push(node);
            proof {
                assert(views(elements@) =~= seq![view]);
            }
            self.add(elements, Ghost(mid));
        }
    }

    /// Opens a scope at the line `[start, end)`.
    fn open(
        &mut self,
        src: &str,
        tokens: &Vec<Token>,
        start: usize,
        line: &Line,
        Ghost(st): Ghost<StateView>,
    )
        requires
            old(self).holds(st),
            describes(tokens@, lex(src@)),
            blen(src@) <= u32::MAX,
            start < line.end <= tokens@.len(),
            st.pos == token_offset(lex(src@), start as int),
            ({
                let view = lex(src@).subrange(start as int, line.end as int);
                &&& line.head is Some == line_head(view) is Some
                &&& line.head is Some ==> line.head->0 < tokens@.len() && lex(
                    src@,
                )[line.head->0 as int].text == line_head(view)->0
            }),
        ensures
            final(self).holds(
                open_top(
                    st,
                    if st.stack.len() == 0 {
                        SyntaxKind::BLOCK
                    } else {
                        SyntaxKind::MODULE
                    },
                    lex(src@).subrange(start as int, line.end as int),
                ),
            ),
    {
        // Top-level scopes are blocks; nested scopes are modules.
        let kind = if self.stack.len() == 0 {
            SyntaxKind::BLOCK
        } else {
            SyntaxKind::MODULE
        };
        let start_byte: usize = tokens[start].start;
        let base: usize = if self.stack.len() == 0 {
            start_byte
        } else {
            proof {
                assert(st.stack[0] == self.stack@[0].view());
            }
            self.stack[0].start
        };
        let head = match line.head {
            Some(k) => text_at(src, tokens, k).to_owned(),
            None => String::new(),
        };
        let children = line_elements(src, tokens, start, line.end, base);
        self.stack.push(Frame { kind, start: start_byte, head, children });
        proof {
            let next = open_top(st, kind, lex(src@).subrange(start as int, line.end as int));
            assert(frame_views(self.stack@) =~= next.stack);
            assert forall|i: int| 0 <= i < next.stack.len() implies base_of(next.stack) <= (
            #[trigger] next.stack[i]).start <= next.pos by {
                if i < st.stack.len() {
                    assert(next.stack[i] == st.stack[i]);
                }
            }
        }
    }

    /// Adds a top-level element.
    fn top_level(&mut self, offset: usize, element: SyntaxElement, Ghost(st): Ghost<StateView>)
        requires
            old(self).holds(st),
            offset <= u32::MAX,
        ensures
            final(self).holds(
                StateView {
                    done: st.done.push(
                        ChildView { offset: offset as int, element: element.view() },
                    ),
                    ..st
                },
            ),
    {
        let ghost view = element.view();
        self.done.push(Child { offset: offset as u32, element: Arc::new(element) });
        proof {
            assert(child_views(self.done@) =~= st.done.push(
                ChildView { offset: offset as int, element: view },
            ));
        }
    }

    /// Adds the tokens of a blank line at file scope.
    fn loose(
        &mut self,
        src: &str,
        tokens: &Vec<Token>,
        start: usize,
        end: usize,
        Ghost(st): Ghost<StateView>,
    )
        requires
            old(self).holds(st),
            describes(tokens@, lex(src@)),
            blen(src@) <= u32::MAX,
            start <= end <= tokens@.len(),
            st.pos == token_offset(lex(src@), start as int),
        ensures
            final(self).holds(
                StateView {
                    done: st.done + loose_tokens(
                        lex(src@).subrange(start as int, end as int),
                        st.pos,
                    ),
                    ..st
                },
            ),
    {
        let ghost toks = lex(src@);
        let ghost line = toks.subrange(start as int, end as int);
        let mut k: usize = start;
        proof {
            assert(st.done + loose_tokens(line, st.pos).take(0) =~= st.done);
        }
        while k < end
            invariant
                toks == lex(src@),
                line == toks.subrange(start as int, end as int),
                describes(tokens@, toks),
                blen(src@) <= u32::MAX,
                start <= k <= end <= tokens@.len(),
                st.pos == token_offset(toks, start as int),
                self.holds(
                    StateView { done: st.done + loose_tokens(line, st.pos).take(k - start), ..st },
                ),
            decreases end - k,
        {
            proof {
                lemma_offset_sub(toks, start as int, end as int, k as int);
                lemma_offset_sub(toks, start as int, end as int, k + 1);
                lemma_offset_sub(toks, k as int, end as int, k + 1);
                lemma_token_slice(src@, k as int);
                lemma_byte_at_split(
                    src@,
                    token_text(toks.take(k + 1)).len() as int,
                    src@.len() as int,
                );
            }
            let tok = tokens[k];
            let element = SyntaxElement::Token(
                SyntaxToken {
                    kind: tok.kind,
                    text: text_at(src, tokens, k).to_owned(),
                    start: 0,
                    end: (tok.end - tok.start) as u32,
                },
            );
            let ghost before = StateView {
                done: st.done + loose_tokens(line, st.pos).take(k - start),
                ..st
            };
            proof {
                let all = loose_tokens(line, st.pos);
                assert(all.take(k - start).push(all[k - start]) =~= all.take(k + 1 - start));
                assert(st.done + all.take(k + 1 - start) =~= before.done.push(all[k - start]));
            }
            self.top_level(tok.start, element, Ghost(before));
            k += 1;
        }
        proof {
            let all = loose_tokens(line, st.pos);
            assert(all.take(end - start) =~= all);
        }
    }

    /// Parses the line `[start, line.end)`.
    fn line<O: OpenerOracle>(
        &mut self,
        oracle: &O,
        src: &str,
        tokens: &Vec<Token>,
        start: usize,
        line: &Line,
        Ghost(st): Ghost<StateView>,
    )
        requires
            old(self).holds(st),
            describes(tokens@, lex(src@)),
            blen(src@) <= u32::MAX,
            start < line.end <= tokens@.len(),
            st.pos == token_offset(lex(src@), start as int),
            ({
                let view = lex(src@).subrange(start as int, line.end as int);
                &&& line.has_equals == line_has_equals(view)
                &&& line.blank == line_blank(view)
                &&& line.head is Some == line_head(view) is Some
                &&& line.head is Some ==> line.head->0 < tokens@.len() && lex(
                    src@,
                )[line.head->0 as int].text == line_head(view)->0
            }),
        ensures
            final(self).holds(
                step(*oracle, st, lex(src@).subrange(start as int, line.end as int)),
            ),
    {
        let ghost toks = lex(src@);
        let ghost view = toks.subrange(start as int, line.end as int);
        let ghost next = step(*oracle, st, view);
        proof {
            lemma_offset_sub(toks, start as int, line.end as int, line.end as int);
            lemma_offset_end(view);
            lemma_token_slice(src@, line.end - 1);
            lemma_byte_at_split(
                src@,
                token_text(toks.take(line.end as int)).len() as int,
                src@.len() as int,
            );
            if st.stack.len() > 0 {
                assert(st.stack[0] == self.stack@[0].view());
                assert(st.stack[0].start <= st.pos);
                assert(st.stack.last() == self.stack@.last().view());
            }
        }
        let start_byte: usize = tokens[start].start;
        let end_byte: usize = tokens[line.end - 1].end;
        let nested = self.stack.len() > 0;
        let is_end = match line.head {
            Some(k) => text_at(src, tokens, k).eq_ignore_ascii_case("End"),
            None => false,
        };
        assert(is_end == line_is_end(view));
        if line.blank {
            if nested {
                let base: usize = self.stack[0].start;
                let elements = line_elements(src, tokens, start, line.end, base);
                self.add(elements, Ghost(st));
            } else {
                self.loose(src, tokens, start, line.end, Ghost(st));
            }
        } else if is_end {
            if nested {
                let base: usize = self.stack[0].start;
                let elements = line_elements(src, tokens, start, line.end, base);
                let ghost mid = StateView { stack: add_children(st.stack, views(elements@)), ..st };
                self.add(elements, Ghost(st));
                self.close(end_byte, Ghost(mid));
            } else {
                // Stray `End` with no open scope: wrap it as an error node.
                let children = line_elements(src, tokens, start, line.end, start_byte);
                let node = SyntaxElement::Node(
                    SyntaxNode {
                        kind: SyntaxKind::ERROR,
                        start: 0,
                        end: (end_byte - start_byte) as u32,
                        children,
                    },
                );
                let ghost mid = StateView {
                    done: st.done.push(
                        ChildView { offset: start_byte as int, element: node.view() },
                    ),
                    ..st
                };
                self.top_level(start_byte, node, Ghost(st));
                self.errors.push(SyntaxError::of(SyntaxErrorKind::StrayEnd, start_byte, end_byte));
            }
        } else if !nested {
            let opens = match line.head {
                Some(k) => oracle.opens_at_file_scope(text_at(src, tokens, k)),
                None => true,
            };
            if opens {
                self.open(src, tokens, start, line, Ghost(st));
            } else {
                let children = line_elements(src, tokens, start, line.end, start_byte);
                let node = SyntaxElement::Node(
                    SyntaxNode {
                        kind: SyntaxKind::FIELD,
                        start: 0,
                        end: (end_byte - start_byte) as u32,
                        children,
                    },
                );
                self.top_level(start_byte, node, Ghost(st));
            }
        } else {
            let opens = match line.head {
                Some(k) => {
                    let top: usize = self.stack.len() - 1;
                    oracle.opens_scope(
                        Some(self.stack[top].head.as_str()),
                        text_at(src, tokens, k),
                        line.has_equals,
                    )
                },
                None => false,
            };
            if opens {
                self.open(src, tokens, start, line, Ghost(st));
            } else {
                let base: usize = self.stack[0].start;
                let children = line_elements(src, tokens, start, line.end, base);
                let node = SyntaxElement::Node(
                    SyntaxNode {
                        kind: SyntaxKind::FIELD,
                        start: (start_byte - base) as u32,
                        end: (end_byte - base) as u32,
                        children,
                    },
                );
                let ghost node_view = node.view();
                let mut elements: Vec<SyntaxElement> = Vec::new();
                elements.push(node);
                proof {
                    assert(views(elements@) =~= seq![node_view]);
                }
                self.add(elements, Ghost(st));
            }
        }
    }
}

/// Parse `src` with the given oracle.
pub fn parse<O: OpenerOracle>(src: &str, oracle: &O) -> (out: Parse)
    requires
        blen(src@) <= u32::MAX,
    ensures
        out.holds(parse_text(*oracle, src@)),
{
    let tokens = tokenize(src);
    let len: usize = byte_len(src);
    let ghost toks = lex(src@);
    let ghost mut st = initial_state();
    let mut parser = Parser { done: Vec::new(), stack: Vec::new(), errors: Vec::new() };
    let mut i: usize = 0;
    proof {
        lemma_offset_end(toks);
        lex_is_lossless(src@);
        assert(child_views(parser.done@) =~= st.done);
        assert(frame_views(parser.stack@) =~= st.stack);
    }
    while i < tokens.len()
        invariant
            toks == lex(src@),
            describes(tokens@, toks),
            blen(src@) <= u32::MAX,
            i <= tokens@.len(),
            parser.holds(st),
            st.pos == token_offset(toks, i as int),
            run(*oracle, toks, 0, initial_state()) == run(*oracle, toks, i as int, st),
        decreases tokens@.len() - i,
    {
        let line = scan_line(src, &tokens, i);
        parser.line(oracle, src, &tokens, i, &line, Ghost(st));
        proof {
            let view = toks.subrange(i as int, line.end as int);
            lemma_offset_sub(toks, i as int, line.end as int, line.end as int);
            lemma_offset_end(view);
            st = step(*oracle, st, view);
        }
        i = line.end;
    }
    // Close any scopes left open at end of file and report them.
    while parser.stack.len() > 0
        invariant
            parser.holds(st),
            st.pos == len,
            len <= u32::MAX,
            close_all(run(*oracle, toks, 0, initial_state())) == close_all(st),
        decreases parser.stack@.len(),
    {
        let top: usize = parser.stack.len() - 1;
        let ghost old_st = st;
        proof {
            assert(st.stack.last() == parser.stack@.last().view());
        }
        parser.errors.push(
            SyntaxError::of(SyntaxErrorKind::UnterminatedBlock, parser.stack[top].start, len),
        );
        proof {
            st =
            StateView {
                errors: st.errors.push(
                    ErrorView {
                        kind: SyntaxErrorKind::UnterminatedBlock,
                        start: st.stack.last().start,
                        end: st.pos,
                    },
                ),
                ..st
            };
        }
        parser.close(len, Ghost(st));
        proof {
            st = close_top(st, len as int);
        }
    }
    proof {
        reveal(parse_text);
    }
    Parse { children: parser.done, errors: parser.errors, len: len as u32 }
}

} // verus!
