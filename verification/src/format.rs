//! Formatting: an indentation normalizer over the lossless tree. Reindents each
//! line to its scope depth and touches nothing else: token spacing, casing,
//! blank lines, and comment lines (whose intended scope is ambiguous) are left
//! exactly as written.

use vstd::prelude::*;
use vstd::string::*;

use crate::analyzer::Span;
use crate::kind::SyntaxKind;
use crate::outline::is_scope;
use crate::parser::{child_views, Child, ChildView, Parse};
use crate::text::{
    blen, byte_at, byte_offsets, cat3, chars_of, lemma_byte_at_split, same, slice,
};
use crate::tree::{views, ElementView, SyntaxElement, SyntaxNode};

verus! {

/// One whitespace replacement: substitute `new_text` for the text at `span`.
#[derive(Debug)]
pub struct FmtEdit {
    pub span: Span,
    pub new_text: String,
}

#[verifier::ext_equal]
pub struct FmtEditView {
    pub span: Span,
    pub new_text: Seq<char>,
}

impl FmtEdit {
    pub open spec fn view(&self) -> FmtEditView {
        FmtEditView { span: self.span, new_text: self.new_text@ }
    }
}

pub open spec fn fmt_edit_views(s: Seq<FmtEdit>) -> Seq<FmtEditView> {
    Seq::new(s.len(), |i: int| s[i].view())
}

/// Edits closer than this many unchanged bytes are merged into one edit
/// (carrying the unchanged text between them). A wildly misindented file
/// otherwise produces one edit per line, and the cost of applying that many
/// edits dwarfs the formatting itself.
pub const COALESCE_GAP: usize = 512;

// ---------------------------------------------------------------------------
// Scope depths
// ---------------------------------------------------------------------------
/// One level deeper; the count saturates.
pub open spec fn deeper(depth: u32) -> u32 {
    if depth < u32::MAX {
        (depth + 1) as u32
    } else {
        depth
    }
}

/// The depth of a token: one inside its scope, except that a scope's own
/// header and `End` sit at the depth of the scope's parent.
pub open spec fn token_depth(depth: u32, in_scope: bool) -> u32 {
    if in_scope && depth > 0 {
        (depth - 1) as u32
    } else {
        depth
    }
}

/// The (end offset, depth) of every token of an element, in order, after
/// `acc`. `depth` counts the enclosing scopes; `in_scope` is whether the
/// innermost enclosing node is one.
pub open spec fn element_depths(
    e: ElementView,
    offset: int,
    depth: u32,
    in_scope: bool,
    acc: Seq<(u32, u32)>,
) -> Seq<(u32, u32)>
    decreases e,
{
    match e {
        ElementView::Token(leaf) => acc.push(
            ((offset as u32).wrapping_add(leaf.end as u32), token_depth(depth, in_scope)),
        ),
        ElementView::Node(node) => if is_scope(node.kind) {
            depths_in(node.children, offset, deeper(depth), true, acc)
        } else {
            depths_in(node.children, offset, depth, false, acc)
        },
    }
}

pub open spec fn depths_in(
    elements: Seq<ElementView>,
    offset: int,
    depth: u32,
    in_scope: bool,
    acc: Seq<(u32, u32)>,
) -> Seq<(u32, u32)>
    decreases elements,
{
    if elements.len() == 0 {
        acc
    } else {
        element_depths(
            elements.last(),
            offset,
            depth,
            in_scope,
            depths_in(elements.drop_last(), offset, depth, in_scope, acc),
        )
    }
}

/// The (end offset, depth) of every token of a document.
pub open spec fn depths_of(children: Seq<ChildView>) -> Seq<(u32, u32)>
    decreases children.len(),
{
    if children.len() == 0 {
        Seq::empty()
    } else {
        element_depths(
            children.last().element,
            children.last().offset,
            0,
            false,
            depths_of(children.drop_last()),
        )
    }
}

/// The token to look at for `offset`, from `cursor` on: the first one that ends
/// after `offset`, or the last one.
pub open spec fn advance(depths: Seq<(u32, u32)>, cursor: int, offset: int) -> int
    decreases depths.len() - cursor,
{
    if 0 <= cursor && cursor + 1 < depths.len() && depths[cursor].0 <= offset {
        advance(depths, cursor + 1, offset)
    } else {
        cursor
    }
}

/// The depth at the cursor.
pub open spec fn depth_at(depths: Seq<(u32, u32)>, cursor: int) -> u32 {
    if 0 <= cursor < depths.len() {
        depths[cursor].1
    } else {
        0
    }
}

fn collect_depths(node: &SyntaxNode, offset: u32, depth: u32, out: &mut Vec<(u32, u32)>)
    ensures
        final(out)@ == element_depths(
            ElementView::Node(node.view()),
            offset as int,
            depth,
            false,
            old(out)@,
        ),
    decreases node,
{
    let in_scope = match node.kind {
        SyntaxKind::BLOCK | SyntaxKind::MODULE => true,
        _ => false,
    };
    let inner: u32 = if in_scope && depth < u32::MAX {
        depth + 1
    } else {
        depth
    };
    let own: u32 = if in_scope && inner > 0 {
        inner - 1
    } else {
        inner
    };
    let ghost start = out@;
    let ghost all = views(node.children@);
    let mut i: usize = 0;
    assert(all.take(0) =~= Seq::<ElementView>::empty());
    while i < node.children.len()
        invariant
            i <= node.children@.len(),
            all == views(node.children@),
            own == token_depth(inner, in_scope),
            out@ == depths_in(all.take(i as int), offset as int, inner, in_scope, start),
        decreases node.children@.len() - i,
    {
        proof {
            assert(all.take(i + 1).drop_last() =~= all.take(i as int));
            assert(all.take(i + 1).last() == node.children@[i as int].view());
            assert(decreases_to!(node => node.children));
            assert(decreases_to!(node.children@ => node.children@[i as int]));
        }
        let ghost before = out@;
        match &node.children[i] {
            SyntaxElement::Node(child) => {
                assert(decreases_to!(node.children@[i as int] => node.children@[i as int]->Node_0));
                collect_depths(child, offset, inner, out);
                proof {
                    lemma_node_depths(child.view(), offset as int, inner, in_scope, before);
                }
            },
            SyntaxElement::Token(token) => {
                out.push((offset.wrapping_add(token.end), own));
            },
        }
        assert(out@ == element_depths(all[i as int], offset as int, inner, in_scope, before));
        i += 1;
    }
    assert(all.take(i as int) =~= all);
}

/// The tokens of a node do not depend on what the node itself is in.
proof fn lemma_node_depths(
    node: crate::tree::NodeView,
    offset: int,
    depth: u32,
    in_scope: bool,
    acc: Seq<(u32, u32)>,
)
    ensures
        element_depths(ElementView::Node(node), offset, depth, in_scope, acc) == element_depths(
            ElementView::Node(node),
            offset,
            depth,
            false,
            acc,
        ),
{
}

fn token_depths(children: &Vec<Child>) -> (out: Vec<(u32, u32)>)
    ensures
        out@ == depths_of(child_views(children@)),
{
    let ghost all = child_views(children@);
    let mut out: Vec<(u32, u32)> = Vec::new();
    let mut i: usize = 0;
    assert(out@ =~= depths_of(all.take(0)));
    while i < children.len()
        invariant
            i <= children@.len(),
            all == child_views(children@),
            out@ == depths_of(all.take(i as int)),
        decreases children@.len() - i,
    {
        let child = &children[i];
        proof {
            assert(all.take(i + 1).drop_last() =~= all.take(i as int));
            assert(all.take(i + 1).last() == child.view());
        }
        let ghost before = out@;
        let element: &SyntaxElement = &child.element;
        match element {
            SyntaxElement::Node(node) => {
                collect_depths(node, child.offset, 0, &mut out);
            },
            SyntaxElement::Token(token) => {
                out.push((child.offset.wrapping_add(token.end), 0));
            },
        }
        assert(out@ == element_depths(
            child.element.view(),
            child.offset as int,
            0,
            false,
            before,
        ));
        i += 1;
    }
    assert(all.take(i as int) =~= all);
    out
}

// ---------------------------------------------------------------------------
// Lines
// ---------------------------------------------------------------------------
/// The end of the line that starts at `i`, past its newline.
pub open spec fn line_stop(s: Seq<char>, i: int) -> int
    decreases s.len() - i,
{
    if i < 0 || i >= s.len() {
        i
    } else if s[i] == '\n' {
        i + 1
    } else {
        line_stop(s, i + 1)
    }
}

/// The end of the contents of a line: before its line ending.
pub open spec fn content_end(s: Seq<char>, start: int, end: int) -> int
    decreases end - start,
{
    if start < end <= s.len() && (s[end - 1] == '\n' || s[end - 1] == '\r') {
        content_end(s, start, end - 1)
    } else {
        end
    }
}

pub open spec fn is_blank(c: char) -> bool {
    c == ' ' || c == '\t'
}

/// The end of the blanks from `i` on, before `end`.
pub open spec fn indent_end(s: Seq<char>, i: int, end: int) -> int
    decreases end - i,
{
    if 0 <= i < end && end <= s.len() && is_blank(s[i]) {
        indent_end(s, i + 1, end)
    } else {
        i
    }
}

/// `count` copies of `unit`.
pub open spec fn repeated(unit: Seq<char>, count: int) -> Seq<char>
    decreases count,
{
    if count <= 0 {
        Seq::empty()
    } else {
        repeated(unit, count - 1) + unit
    }
}

/// A replacement of the characters `[start, end)`.
#[verifier::ext_equal]
pub struct EditView {
    pub start: int,
    pub end: int,
    pub text: Seq<char>,
}

/// Where the indentation of the line `[start, stop)` ends, if the line is to be
/// indented: blank lines and comment-only lines are left alone.
pub open spec fn indented_at(s: Seq<char>, start: int, stop: int) -> Option<int> {
    let content = content_end(s, start, stop);
    let at = indent_end(s, start, content);
    if at < content && s[at] != ';' {
        Some(at)
    } else {
        None
    }
}

/// The edits of the lines from `i` on, after `acc`.
pub open spec fn line_edits(
    depths: Seq<(u32, u32)>,
    s: Seq<char>,
    indent: Seq<char>,
    i: int,
    cursor: int,
    acc: Seq<EditView>,
) -> Seq<EditView>
    decreases s.len() - i,
{
    if i < 0 || i >= s.len() {
        acc
    } else {
        let stop = line_stop(s, i);
        proof {
            lemma_line_stop(s, i);
        }
        match indented_at(s, i, stop) {
            None => line_edits(depths, s, indent, stop, cursor, acc),
            Some(at) => {
                let next = advance(depths, cursor, byte_at(s, at));
                let desired = repeated(indent, depth_at(depths, next) as int);
                if desired == s.subrange(i, at) {
                    line_edits(depths, s, indent, stop, next, acc)
                } else {
                    line_edits(
                        depths,
                        s,
                        indent,
                        stop,
                        next,
                        acc.push(EditView { start: i, end: at, text: desired }),
                    )
                }
            },
        }
    }
}

/// Adds an edit, merged into the last one if few bytes are between them.
pub open spec fn merged(s: Seq<char>, edits: Seq<EditView>, e: EditView) -> Seq<EditView> {
    if edits.len() > 0 && byte_at(s, e.start) - byte_at(s, edits.last().end) < COALESCE_GAP {
        let prev = edits.last();
        edits.drop_last().push(
            EditView {
                start: prev.start,
                end: e.end,
                text: prev.text + s.subrange(prev.end, e.start) + e.text,
            },
        )
    } else {
        edits.push(e)
    }
}

/// Merges edits that few bytes separate.
pub open spec fn coalesced(s: Seq<char>, edits: Seq<EditView>) -> Seq<EditView>
    decreases edits.len(),
{
    if edits.len() == 0 {
        Seq::empty()
    } else {
        merged(s, coalesced(s, edits.drop_last()), edits.last())
    }
}

/// Edits by character as edits by byte.
pub open spec fn in_bytes(s: Seq<char>, edits: Seq<EditView>) -> Seq<FmtEditView> {
    Seq::new(
        edits.len(),
        |i: int|
            FmtEditView {
                span: Span {
                    start: byte_at(s, edits[i].start) as u32,
                    end: byte_at(s, edits[i].end) as u32,
                },
                new_text: edits[i].text,
            },
    )
}

/// The edits that reindent the lines of a document, line by line.
pub open spec fn indent_edits(
    children: Seq<ChildView>,
    s: Seq<char>,
    indent: Seq<char>,
) -> Seq<EditView> {
    line_edits(depths_of(children), s, indent, 0, 0, Seq::empty())
}

pub proof fn lemma_line_stop(s: Seq<char>, i: int)
    requires
        0 <= i < s.len(),
    ensures
        i < line_stop(s, i) <= s.len(),
    decreases s.len() - i,
{
    reveal_with_fuel(line_stop, 2);
    if s[i] != '\n' && i + 1 < s.len() {
        lemma_line_stop(s, i + 1);
    }
}

proof fn lemma_content_end(s: Seq<char>, start: int, end: int)
    requires
        0 <= start <= end <= s.len(),
    ensures
        start <= content_end(s, start, end) <= end,
    decreases end - start,
{
    if start < end && (s[end - 1] == '\n' || s[end - 1] == '\r') {
        lemma_content_end(s, start, end - 1);
    }
}

pub proof fn lemma_indent_end(s: Seq<char>, i: int, end: int)
    requires
        0 <= i <= end <= s.len(),
    ensures
        i <= indent_end(s, i, end) <= end,
        forall|k: int| i <= k < indent_end(s, i, end) ==> is_blank(#[trigger] s[k]),
    decreases end - i,
{
    if i < end && is_blank(s[i]) {
        lemma_indent_end(s, i + 1, end);
    }
}

fn find_line_stop(chars: &Vec<char>, start: usize) -> (stop: usize)
    requires
        start < chars@.len(),
    ensures
        stop == line_stop(chars@, start as int),
        start < stop <= chars@.len(),
{
    let mut i: usize = start;
    proof {
        lemma_line_stop(chars@, start as int);
    }
    while i < chars.len() && chars[i] != '\n'
        invariant
            start <= i <= chars@.len(),
            line_stop(chars@, i as int) == line_stop(chars@, start as int),
        decreases chars@.len() - i,
    {
        i += 1;
    }
    if i < chars.len() {
        i + 1
    } else {
        i
    }
}

fn find_indented(chars: &Vec<char>, start: usize, stop: usize) -> (out: Option<usize>)
    requires
        start < stop <= chars@.len(),
    ensures
        match out {
            Some(at) => indented_at(chars@, start as int, stop as int) == Some(at as int),
            None => indented_at(chars@, start as int, stop as int) is None,
        },
{
    let mut end: usize = stop;
    while end > start && (chars[end - 1] == '\n' || chars[end - 1] == '\r')
        invariant
            start <= end <= stop <= chars@.len(),
            content_end(chars@, start as int, end as int) == content_end(
                chars@,
                start as int,
                stop as int,
            ),
        decreases end,
    {
        end -= 1;
    }
    let mut at: usize = start;
    while at < end && (chars[at] == ' ' || chars[at] == '\t')
        invariant
            start <= at <= end <= chars@.len(),
            indent_end(chars@, at as int, end as int) == indent_end(
                chars@,
                start as int,
                end as int,
            ),
        decreases end - at,
    {
        at += 1;
    }
    if at < end && chars[at] != ';' {
        Some(at)
    } else {
        None
    }
}

/// `count` copies of `unit`.
fn repeat(unit: &str, count: u32) -> (out: String)
    ensures
        out@ == repeated(unit@, count as int),
{
    let mut out = String::new();
    let mut i: u32 = 0;
    while i < count
        invariant
            i <= count,
            out@ == repeated(unit@, i as int),
        decreases count - i,
    {
        out.append(unit);
        i += 1;
    }
    out
}

/// A replacement of the characters `[start, end)`.
struct RawEdit {
    start: usize,
    end: usize,
    text: String,
}

impl RawEdit {
    spec fn view(&self) -> EditView {
        EditView { start: self.start as int, end: self.end as int, text: self.text@ }
    }
}

spec fn raw_views(s: Seq<RawEdit>) -> Seq<EditView> {
    Seq::new(s.len(), |i: int| s[i].view())
}

/// The edits are inside the first `limit` characters.
spec fn within(edits: Seq<EditView>, limit: int) -> bool {
    forall|i: int|
        0 <= i < edits.len() ==> 0 <= (#[trigger] edits[i]).start <= edits[i].end <= limit
}

/// Adds an edit, merged into the last one if few bytes are between them. The
/// applied result is identical; only the number of edits changes.
fn coalesce(
    out: &mut Vec<RawEdit>,
    edit: RawEdit,
    text: &str,
    offsets: &Vec<usize>,
    Ghost(limit): Ghost<int>,
)
    requires
        within(raw_views(old(out)@), limit),
        limit <= edit.start <= edit.end <= text@.len(),
        offsets@.len() == text@.len() + 1,
        forall|k: int| 0 <= k <= text@.len() ==> #[trigger] offsets@[k] == byte_at(text@, k),
    ensures
        raw_views(final(out)@) == merged(text@, raw_views(old(out)@), edit.view()),
        within(raw_views(final(out)@), edit.end as int),
{
    let ghost before = raw_views(out@);
    let ghost new = edit.view();
    let n = out.len();
    if n > 0 {
        let from = out[n - 1].end;
        proof {
            assert(before[n - 1] == out@[n - 1].view());
            lemma_byte_at_split(text@, from as int, edit.start as int);
        }
        if offsets[edit.start] - offsets[from] < COALESCE_GAP {
            let gap = slice(
                text,
                offsets[from],
                offsets[edit.start],
                Ghost(from as int),
                Ghost(edit.start as int),
            );
            let last = out.pop().unwrap();
            assert(raw_views(out@) =~= before.drop_last());
            let joined = RawEdit {
                start: last.start,
                end: edit.end,
                text: cat3(last.text.as_str(), gap, edit.text.as_str()),
            };
            let ghost joined_view = joined.view();
            out.push(joined);
            assert(raw_views(out@) =~= before.drop_last().push(joined_view));
            assert forall|i: int| 0 <= i < raw_views(out@).len() implies 0 <= (
            #[trigger] raw_views(out@)[i]).start <= raw_views(out@)[i].end <= new.end by {
                assert(before[i].start <= before[i].end);
            }
            return ;
        }
    }
    out.push(edit);
    assert(raw_views(out@) =~= before.push(new));
    assert forall|i: int| 0 <= i < raw_views(out@).len() implies 0 <= (
    #[trigger] raw_views(out@)[i]).start <= raw_views(out@)[i].end <= new.end by {
        if i < before.len() {
            assert(before[i].start <= before[i].end);
        }
    }
}

/// Compute the indentation edits to normalize `text`. `indent` is one level's
/// worth of whitespace (e.g. `"  "` or `"\t"`). Edits are per misindented
/// line, then runs of nearby edits are coalesced (see [`COALESCE_GAP`]).
pub fn format_edits(parse: &Parse, text: &str, indent: &str) -> (out: Vec<FmtEdit>)
    requires
        blen(text@) <= u32::MAX,
    ensures
        fmt_edit_views(out@) == in_bytes(
            text@,
            coalesced(text@, indent_edits(child_views(parse.children@), text@, indent@)),
        ),
{
    // One ordered walk collects the depth of every token, so that the line
    // loop resolves each line's depth with a forward cursor.
    let depths = token_depths(&parse.children);
    let chars = chars_of(text);
    let offsets = byte_offsets(&chars);
    let mut edits: Vec<RawEdit> = Vec::new();
    let mut cursor: usize = 0;
    let mut start: usize = 0;
    let ghost mut lines: Seq<EditView> = Seq::empty();
    assert(raw_views(edits@) =~= Seq::<EditView>::empty());
    while start < chars.len()
        invariant
            chars@ == text@,
            start <= chars@.len(),
            depths@ == depths_of(child_views(parse.children@)),
            offsets@.len() == chars@.len() + 1,
            forall|k: int| 0 <= k <= chars@.len() ==> #[trigger] offsets@[k] == byte_at(chars@, k),
            raw_views(edits@) == coalesced(text@, lines),
            within(raw_views(edits@), start as int),
            line_edits(depths@, text@, indent@, start as int, cursor as int, lines) == indent_edits(
                child_views(parse.children@),
                text@,
                indent@,
            ),
        decreases chars@.len() - start,
    {
        let stop = find_line_stop(&chars, start);
        proof {
            assert(within(raw_views(edits@), stop as int)) by {
                assert forall|i: int| 0 <= i < raw_views(edits@).len() implies 0 <= (
                #[trigger] raw_views(edits@)[i]).start <= raw_views(edits@)[i].end <= stop by {}
            }
        }
        if let Some(at) = find_indented(&chars, start, stop) {
            proof {
                lemma_content_end(text@, start as int, stop as int);
                lemma_indent_end(
                    text@,
                    start as int,
                    content_end(text@, start as int, stop as int),
                );
            }
            let ghost was = cursor as int;
            let offset = offsets[at];
            while cursor < depths.len() && depths.len() - cursor > 1 && depths[cursor].0 as usize
                <= offset
                invariant
                    offset == byte_at(text@, at as int),
                    advance(depths@, cursor as int, offset as int) == advance(
                        depths@,
                        was,
                        offset as int,
                    ),
                decreases depths@.len() - cursor,
            {
                cursor += 1;
            }
            assert(cursor == advance(depths@, was, offset as int));
            let depth: u32 = if cursor < depths.len() {
                depths[cursor].1
            } else {
                0
            };
            let desired = repeat(indent, depth);
            let current = slice(
                text,
                offsets[start],
                offset,
                Ghost(start as int),
                Ghost(at as int),
            );
            if !same(desired.as_str(), current) {
                let ghost edit = EditView { start: start as int, end: at as int, text: desired@ };
                coalesce(
                    &mut edits,
                    RawEdit { start, end: at, text: desired },
                    text,
                    &offsets,
                    Ghost(start as int),
                );
                proof {
                    assert(lines.push(edit).drop_last() =~= lines);
                    lines = lines.push(edit);
                    assert forall|i: int| 0 <= i < raw_views(edits@).len() implies 0 <= (
                    #[trigger] raw_views(edits@)[i]).start <= raw_views(edits@)[i].end <= stop by {}
                }
            }
        }
        start = stop;
    }
    let mut out: Vec<FmtEdit> = Vec::new();
    let ghost all = raw_views(edits@);
    let mut i: usize = 0;
    assert(fmt_edit_views(out@) =~= in_bytes(text@, all.take(0)));
    while i < edits.len()
        invariant
            i <= edits@.len(),
            all == raw_views(edits@),
            within(all, text@.len() as int),
            blen(text@) <= u32::MAX,
            offsets@.len() == text@.len() + 1,
            forall|k: int| 0 <= k <= text@.len() ==> #[trigger] offsets@[k] == byte_at(text@, k),
            fmt_edit_views(out@) == in_bytes(text@, all.take(i as int)),
        decreases edits@.len() - i,
    {
        let edit = &edits[i];
        let ghost before = fmt_edit_views(out@);
        assert(all[i as int] == edit.view());
        let span = Span { start: offsets[edit.start] as u32, end: offsets[edit.end] as u32 };
        let formatted = FmtEdit { span, new_text: edit.text.clone() };
        let ghost view = formatted.view();
        out.push(formatted);
        proof {
            assert(fmt_edit_views(out@) =~= before.push(view));
            assert(in_bytes(text@, all.take(i + 1)) =~= in_bytes(text@, all.take(i as int)).push(
                view,
            ));
        }
        i += 1;
    }
    assert(all.take(i as int) =~= all);
    out
}

// ---------------------------------------------------------------------------
// Laws
// ---------------------------------------------------------------------------
/// Where the last edit ends.
pub open spec fn edits_end(edits: Seq<EditView>) -> int {
    if edits.len() == 0 {
        0
    } else {
        edits.last().end
    }
}

/// The edited text up to the end of the last edit.
pub open spec fn edited_prefix(s: Seq<char>, edits: Seq<EditView>) -> Seq<char>
    decreases edits.len(),
{
    if edits.len() == 0 {
        Seq::empty()
    } else {
        let rest = edits.drop_last();
        edited_prefix(s, rest) + s.subrange(edits_end(rest), edits.last().start)
            + edits.last().text
    }
}

/// The text with edits applied.
pub open spec fn edited(s: Seq<char>, edits: Seq<EditView>) -> Seq<char> {
    edited_prefix(s, edits) + s.skip(edits_end(edits))
}

proof fn lemma_coalesced(s: Seq<char>, edits: Seq<EditView>)
    ensures
        edited_prefix(s, coalesced(s, edits)) == edited_prefix(s, edits),
        edits_end(coalesced(s, edits)) == edits_end(edits),
        edits.len() > 0 ==> coalesced(s, edits).len() > 0,
    decreases edits.len(),
{
    if edits.len() > 0 {
        let rest = edits.drop_last();
        lemma_coalesced(s, rest);
        let before = coalesced(s, rest);
        let after = coalesced(s, edits);
        let e = edits.last();
        if before.len() > 0 && byte_at(s, e.start) - byte_at(s, before.last().end)
            < COALESCE_GAP {
            let prev = before.last();
            assert(after.drop_last() =~= before.drop_last());
            assert(rest.len() > 0) by {
                if rest.len() == 0 {
                    assert(before =~= Seq::<EditView>::empty());
                }
            }
            let head = edited_prefix(s, before.drop_last()) + s.subrange(
                edits_end(before.drop_last()),
                prev.start,
            );
            let gap = s.subrange(prev.end, e.start);
            assert(head + (prev.text + gap + e.text) =~= head + prev.text + gap + e.text);
        } else {
            assert(after.drop_last() =~= before);
        }
    }
}

/// The edits are in order, apart, and inside the text.
pub open spec fn in_order(s: Seq<char>, edits: Seq<EditView>) -> bool {
    &&& forall|i: int|
        0 <= i < edits.len() ==> 0 <= (#[trigger] edits[i]).start <= edits[i].end <= s.len()
    &&& forall|i: int, j: int| #![trigger edits[i], edits[j]]
        0 <= i < j < edits.len() ==> edits[i].end <= edits[j].start
}

/// Law: edits that are in order stay so when they are coalesced.
pub proof fn coalescing_keeps_the_order(s: Seq<char>, edits: Seq<EditView>)
    requires
        in_order(s, edits),
    ensures
        in_order(s, coalesced(s, edits)),
    decreases edits.len(),
{
    if edits.len() > 0 {
        let rest = edits.drop_last();
        let e = edits.last();
        assert forall|i: int, j: int| #![trigger rest[i], rest[j]]
            0 <= i < j < rest.len() implies rest[i].end <= rest[j].start by {
            assert(edits[i] == rest[i] && edits[j] == rest[j]);
        }
        assert forall|i: int| 0 <= i < rest.len() implies 0 <= (#[trigger] rest[i]).start
            <= rest[i].end <= s.len() by {
            assert(edits[i] == rest[i]);
        }
        coalescing_keeps_the_order(s, rest);
        lemma_coalesced(s, rest);
        let before = coalesced(s, rest);
        let after = coalesced(s, edits);
        assert(edits[edits.len() - 1] == e);
        if before.len() > 0 {
            assert(rest.len() > 0) by {
                if rest.len() == 0 {
                    assert(before =~= Seq::<EditView>::empty());
                }
            }
            assert(edits[edits.len() - 2].end <= e.start);
            assert(before[before.len() - 1].end <= e.start);
        }
        assert forall|i: int| 0 <= i < before.len() implies (#[trigger] before[i]).end
            <= e.start by {
            assert(before[i].end <= before[before.len() - 1].end) by {
                if i < before.len() - 1 {
                    assert(before[i].end <= before[before.len() - 1].start);
                }
            }
        }
        assert forall|i: int| 0 <= i < after.len() implies 0 <= (#[trigger] after[i]).start
            <= after[i].end <= s.len() by {
            if i < before.len() {
                assert(before[i].start <= before[i].end);
            }
        }
        assert forall|i: int, j: int| #![trigger after[i], after[j]]
            0 <= i < j < after.len() implies after[i].end <= after[j].start by {
            assert(before[i] == after[i]);
            if j < before.len() {
                assert(before[i].end <= before[j].start);
            }
        }
    }
}

/// Law: coalescing changes the number of edits, not their effect.
pub proof fn coalescing_keeps_the_result(s: Seq<char>, edits: Seq<EditView>)
    ensures
        edited(s, coalesced(s, edits)) == edited(s, edits),
{
    lemma_coalesced(s, edits);
}

/// An edit of leading blanks: it starts at the start of a line and replaces
/// blanks by copies of the indentation unit.
pub open spec fn reindents(s: Seq<char>, indent: Seq<char>, e: EditView) -> bool {
    &&& 0 <= e.start <= e.end < s.len()
    &&& e.start == 0 || s[e.start - 1] == '\n'
    &&& forall|k: int| e.start <= k < e.end ==> is_blank(#[trigger] s[k])
    &&& exists|count: int| e.text == #[trigger] repeated(indent, count)
}

proof fn lemma_line_stop_newline(s: Seq<char>, i: int)
    requires
        0 <= i < s.len(),
    ensures
        line_stop(s, i) < s.len() ==> s[line_stop(s, i) - 1] == '\n',
    decreases s.len() - i,
{
    reveal_with_fuel(line_stop, 2);
    if s[i] != '\n' && i + 1 < s.len() {
        lemma_line_stop_newline(s, i + 1);
    }
}

/// Edits of leading blanks, in order and apart, before `limit`.
pub open spec fn reindents_all(
    s: Seq<char>,
    indent: Seq<char>,
    edits: Seq<EditView>,
    limit: int,
) -> bool {
    &&& forall|i: int|
        0 <= i < edits.len() ==> reindents(s, indent, #[trigger] edits[i]) && edits[i].end <= limit
    &&& forall|i: int, j: int| #![trigger edits[i], edits[j]]
        0 <= i < j < edits.len() ==> edits[i].end <= edits[j].start
}

proof fn lemma_line_edits(
    depths: Seq<(u32, u32)>,
    s: Seq<char>,
    indent: Seq<char>,
    i: int,
    cursor: int,
    acc: Seq<EditView>,
)
    requires
        0 <= i <= s.len(),
        i == 0 || i == s.len() || s[i - 1] == '\n',
        reindents_all(s, indent, acc, i),
    ensures
        reindents_all(s, indent, line_edits(depths, s, indent, i, cursor, acc), s.len() as int),
    decreases s.len() - i,
{
    if i < s.len() {
        let stop = line_stop(s, i);
        lemma_line_stop(s, i);
        lemma_line_stop_newline(s, i);
        lemma_content_end(s, i, stop);
        lemma_indent_end(s, i, content_end(s, i, stop));
        match indented_at(s, i, stop) {
            None => {
                lemma_line_edits(depths, s, indent, stop, cursor, acc);
            },
            Some(at) => {
                let next = advance(depths, cursor, byte_at(s, at));
                let count = depth_at(depths, next) as int;
                let desired = repeated(indent, count);
                if desired == s.subrange(i, at) {
                    lemma_line_edits(depths, s, indent, stop, next, acc);
                } else {
                    let e = EditView { start: i, end: at, text: desired };
                    assert(e.text == repeated(indent, count));
                    let more = acc.push(e);
                    assert forall|k: int| 0 <= k < more.len() implies reindents(
                        s,
                        indent,
                        #[trigger] more[k],
                    ) && more[k].end <= stop by {
                        if k < acc.len() {
                            assert(acc[k] == more[k]);
                        }
                    }
                    assert forall|a: int, b: int| #![trigger more[a], more[b]]
                        0 <= a < b < more.len() implies more[a].end <= more[b].start by {
                        assert(acc[a] == more[a]);
                        if b < acc.len() {
                            assert(acc[b] == more[b]);
                        }
                    }
                    lemma_line_edits(depths, s, indent, stop, next, more);
                }
            },
        }
    }
}

/// Law: formatting reindents lines and touches nothing else. Each edit starts
/// at the start of a line and replaces exactly leading blanks, by copies of the
/// indentation unit; edits are in order and do not overlap.
pub proof fn formatting_only_reindents(
    children: Seq<ChildView>,
    s: Seq<char>,
    indent: Seq<char>,
)
    ensures
        reindents_all(s, indent, indent_edits(children, s, indent), s.len() as int),
{
    lemma_line_edits(depths_of(children), s, indent, 0, 0, Seq::empty());
}

/// The characters of a text that are no blanks.
pub open spec fn unblanked(s: Seq<char>) -> Seq<char>
    decreases s.len(),
{
    if s.len() == 0 {
        Seq::empty()
    } else if is_blank(s.last()) {
        unblanked(s.drop_last())
    } else {
        unblanked(s.drop_last()).push(s.last())
    }
}

proof fn lemma_unblanked_concat(a: Seq<char>, b: Seq<char>)
    ensures
        unblanked(a + b) == unblanked(a) + unblanked(b),
    decreases b.len(),
{
    if b.len() == 0 {
        assert(a + b =~= a);
        assert(unblanked(a) + unblanked(b) =~= unblanked(a));
    } else {
        assert((a + b).drop_last() =~= a + b.drop_last());
        lemma_unblanked_concat(a, b.drop_last());
        assert(unblanked(a + b) =~= unblanked(a) + unblanked(b));
    }
}

proof fn lemma_blanks_vanish(s: Seq<char>)
    requires
        forall|k: int| 0 <= k < s.len() ==> is_blank(#[trigger] s[k]),
    ensures
        unblanked(s) == Seq::<char>::empty(),
    decreases s.len(),
{
    if s.len() > 0 {
        assert forall|k: int| 0 <= k < s.drop_last().len() implies is_blank(
            #[trigger] s.drop_last()[k],
        ) by {
            assert(s[k] == s.drop_last()[k]);
        }
        lemma_blanks_vanish(s.drop_last());
        assert(is_blank(s[s.len() - 1]));
    }
}

proof fn lemma_repeated_blank(unit: Seq<char>, count: int)
    requires
        forall|k: int| 0 <= k < unit.len() ==> is_blank(#[trigger] unit[k]),
    ensures
        unblanked(repeated(unit, count)) == Seq::<char>::empty(),
    decreases count,
{
    if count > 0 {
        lemma_repeated_blank(unit, count - 1);
        lemma_unblanked_concat(repeated(unit, count - 1), unit);
        lemma_blanks_vanish(unit);
        assert(Seq::<char>::empty() + Seq::<char>::empty() =~= Seq::<char>::empty());
    }
}

proof fn lemma_prefix_unblanked(s: Seq<char>, indent: Seq<char>, edits: Seq<EditView>)
    requires
        reindents_all(s, indent, edits, s.len() as int),
        forall|k: int| 0 <= k < indent.len() ==> is_blank(#[trigger] indent[k]),
    ensures
        0 <= edits_end(edits) <= s.len(),
        unblanked(edited_prefix(s, edits)) == unblanked(s.take(edits_end(edits))),
    decreases edits.len(),
{
    if edits.len() == 0 {
        assert(s.take(0) =~= Seq::<char>::empty());
    } else {
        let rest = edits.drop_last();
        let e = edits.last();
        assert(e == edits[edits.len() - 1]);
        assert(reindents_all(s, indent, rest, s.len() as int)) by {
            assert forall|i: int| 0 <= i < rest.len() implies reindents(
                s,
                indent,
                #[trigger] rest[i],
            ) && rest[i].end <= s.len() by {
                assert(rest[i] == edits[i]);
            }
            assert forall|i: int, j: int| #![trigger rest[i], rest[j]]
                0 <= i < j < rest.len() implies rest[i].end <= rest[j].start by {
                assert(rest[i] == edits[i]);
                assert(rest[j] == edits[j]);
            }
        }
        lemma_prefix_unblanked(s, indent, rest);
        if rest.len() > 0 {
            assert(rest.last() == edits[edits.len() - 2]);
        }
        let from = edits_end(rest);
        let gap = s.subrange(from, e.start);
        let old_blanks = s.subrange(e.start, e.end);
        lemma_unblanked_concat(edited_prefix(s, rest), gap);
        lemma_unblanked_concat(edited_prefix(s, rest) + gap, e.text);
        let count = choose|count: int| e.text == #[trigger] repeated(indent, count);
        lemma_repeated_blank(indent, count);
        assert forall|k: int| 0 <= k < old_blanks.len() implies is_blank(
            #[trigger] old_blanks[k],
        ) by {
            assert(old_blanks[k] == s[e.start + k]);
        }
        lemma_blanks_vanish(old_blanks);
        assert(s.take(e.end) =~= s.take(from) + gap + old_blanks);
        lemma_unblanked_concat(s.take(from), gap);
        lemma_unblanked_concat(s.take(from) + gap, old_blanks);
    }
}

/// Law: with an indentation unit made of blanks, formatting adds and removes
/// nothing but blanks.
pub proof fn formatting_changes_only_blanks(
    children: Seq<ChildView>,
    s: Seq<char>,
    indent: Seq<char>,
)
    requires
        forall|k: int| 0 <= k < indent.len() ==> is_blank(#[trigger] indent[k]),
    ensures
        unblanked(edited(s, coalesced(s, indent_edits(children, s, indent)))) == unblanked(s),
{
    let edits = indent_edits(children, s, indent);
    formatting_only_reindents(children, s, indent);
    coalescing_keeps_the_result(s, edits);
    lemma_prefix_unblanked(s, indent, edits);
    lemma_unblanked_concat(edited_prefix(s, edits), s.skip(edits_end(edits)));
    lemma_unblanked_concat(s.take(edits_end(edits)), s.skip(edits_end(edits)));
    assert(s.take(edits_end(edits)) + s.skip(edits_end(edits)) =~= s);
}

} // verus!
