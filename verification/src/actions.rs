//! Quick fixes: mechanical repairs that include a scope missing its `End`, a
//! misspelled enum / bitflag member, and diagnostic-tied fixes (remove
//! unreachable sets, scaffold stub definitions, suppress diagnostics in-file).

use vstd::prelude::*;
use vstd::string::*;

use crate::analyzer::{str_views, Analyzer, Span};
use crate::ast::{node_views, opt_leaf, Module};
use crate::checks::{diagnostic_views, Diagnostic, DiagnosticView};
use crate::cursor::{find_last, last_of_kind};
use crate::diagnostics::opt_index_view;
use crate::facts::{lists_name, name_listed};
use crate::format::indent_end;
use crate::index::{rebase, IndexView, WorkspaceIndex};
use crate::kind::SyntaxKind;
use crate::lexer::byte_len;
use crate::nav::{outer_nodes, path_reference, reference_at, ReferenceView};
use crate::numbers::{decimal, to_decimal};
use crate::outline::{leaf_span, node_span};
use crate::parser::{
    child_views, opt_text, ChildView, Parse, SyntaxError, SyntaxErrorKind,
};
use crate::position::{path_at, path_of, Bias, PathView};
use crate::pragma::{
    byte_ranges, lemma_words_inside, list_start, pragma_rest, pragma_words, range_views, words_of,
};
use crate::schema::{BlockType, RefKind, Schema};
use crate::suggest::{meets, meets_range, suggest_members, suggestions_of};
use crate::text::{
    blen, byte_at, byte_offsets, cat2, cat3, cat5, chars_of, is_whitespace, same,
    same_ignoring_case, slice, whitespace,
};
use crate::tree::{
    views, ElementView, LeafView, NodeView, SyntaxElement, SyntaxNode, SyntaxToken,
};

verus! {

/// One offered fix: replace `span`'s text with `new_text`.
#[derive(Debug)]
pub struct Fix {
    pub title: String,
    pub span: Span,
    pub new_text: String,
}

#[verifier::ext_equal]
pub struct FixView {
    pub title: Seq<char>,
    pub span: Span,
    pub new_text: Seq<char>,
}

impl Fix {
    pub open spec fn view(&self) -> FixView {
        FixView { title: self.title@, span: self.span, new_text: self.new_text@ }
    }
}

pub open spec fn fix_views(s: Seq<Fix>) -> Seq<FixView> {
    Seq::new(s.len(), |i: int| s[i].view())
}

/// Adds a fix.
pub(crate) fn push_fix(out: &mut Vec<Fix>, title: String, span: Span, new_text: String)
    ensures
        fix_views(final(out)@) == fix_views(old(out)@).push(
            FixView { title: title@, span, new_text: new_text@ },
        ),
{
    let ghost before = fix_views(out@);
    out.push(Fix { title, span, new_text });
    assert(fix_views(out@) =~= before.push(FixView { title: title@, span, new_text: new_text@ }));
}

// ---------------------------------------------------------------------------
// Places in the text
// ---------------------------------------------------------------------------
/// The character that starts at a byte offset, from `i` on; the end of the
/// text counts as one. Nothing if no character starts there.
pub open spec fn index_at(s: Seq<char>, byte: int, i: int) -> Option<int>
    decreases s.len() - i + 1,
{
    if i < 0 || i > s.len() {
        None
    } else if byte_at(s, i) == byte {
        Some(i)
    } else {
        index_at(s, byte, i + 1)
    }
}

/// The start of the line that holds position `i`.
pub open spec fn line_begin(s: Seq<char>, i: int) -> int
    decreases i,
{
    if i <= 0 || i > s.len() || s[i - 1] == '\n' {
        i
    } else {
        line_begin(s, i - 1)
    }
}

/// The blanks that begin at position `i`.
pub open spec fn blanks_at(s: Seq<char>, i: int) -> Seq<char> {
    s.subrange(i, indent_end(s, i, s.len() as int))
}

/// The end of the whitespace that begins at `i`.
pub open spec fn space_end(s: Seq<char>, i: int) -> int
    decreases s.len() - i,
{
    if 0 <= i < s.len() && whitespace(s[i]) {
        space_end(s, i + 1)
    } else {
        i
    }
}

/// The end of the word that begins at `i`.
pub open spec fn word_end(s: Seq<char>, i: int) -> int
    decreases s.len() - i,
{
    if 0 <= i < s.len() && !whitespace(s[i]) {
        word_end(s, i + 1)
    } else {
        i
    }
}

/// The first word from position `i` on, or `?` if there is none.
pub open spec fn first_word(s: Seq<char>, i: int) -> Seq<char> {
    let start = space_end(s, i);
    let end = word_end(s, start);
    if start < end {
        s.subrange(start, end)
    } else {
        "?"@
    }
}

/// What separates an appended line from the text before it.
pub open spec fn line_lead(s: Seq<char>) -> Seq<char> {
    if s.len() == 0 || s.last() == '\n' {
        ""@
    } else {
        "\n"@
    }
}

/// The empty range at the end of the text.
pub open spec fn end_span(s: Seq<char>) -> Span {
    Span { start: blen(s) as u32, end: blen(s) as u32 }
}

/// A text with the places of its characters.
struct Source<'a> {
    text: &'a str,
    chars: Vec<char>,
    offsets: Vec<usize>,
}

impl<'a> Source<'a> {
    spec fn wf(&self) -> bool {
        &&& self.chars@ == self.text@
        &&& self.offsets@.len() == self.text@.len() + 1
        &&& forall|k: int|
            0 <= k <= self.text@.len() ==> #[trigger] self.offsets@[k] == byte_at(self.text@, k)
    }

    fn new(text: &'a str) -> (out: Self)
        ensures
            out.wf(),
            out.text == text,
    {
        let len = byte_len(text);
        let chars = chars_of(text);
        let offsets = byte_offsets(&chars);
        Source { text, chars, offsets }
    }

    fn index(&self, byte: usize) -> (out: Option<usize>)
        requires
            self.wf(),
        ensures
            match out {
                Some(i) => index_at(self.text@, byte as int, 0) == Some(i as int) && i
                    <= self.text@.len(),
                None => index_at(self.text@, byte as int, 0) is None,
            },
    {
        let mut i: usize = 0;
        while i < self.offsets.len()
            invariant
                self.wf(),
                i <= self.offsets@.len(),
                index_at(self.text@, byte as int, i as int) == index_at(
                    self.text@,
                    byte as int,
                    0,
                ),
            decreases self.offsets@.len() - i,
        {
            if self.offsets[i] == byte {
                return Some(i);
            }
            i += 1;
        }
        None
    }

    fn line_begin(&self, i: usize) -> (out: usize)
        requires
            self.wf(),
            i <= self.text@.len(),
        ensures
            out == line_begin(self.text@, i as int),
            out <= i,
    {
        let mut at: usize = i;
        while at > 0 && self.chars[at - 1] != '\n'
            invariant
                self.wf(),
                at <= i <= self.text@.len(),
                line_begin(self.text@, at as int) == line_begin(self.text@, i as int),
            decreases at,
        {
            at -= 1;
        }
        at
    }

    fn part(&self, start: usize, end: usize) -> (out: &'a str)
        requires
            self.wf(),
            start <= end <= self.text@.len(),
        ensures
            out@ == self.text@.subrange(start as int, end as int),
    {
        slice(
            self.text,
            self.offsets[start],
            self.offsets[end],
            Ghost(start as int),
            Ghost(end as int),
        )
    }

    fn blanks(&self, i: usize) -> (out: &'a str)
        requires
            self.wf(),
            i <= self.text@.len(),
        ensures
            out@ == blanks_at(self.text@, i as int),
    {
        let mut at: usize = i;
        while at < self.chars.len() && (self.chars[at] == ' ' || self.chars[at] == '\t')
            invariant
                self.wf(),
                i <= at <= self.text@.len(),
                indent_end(self.text@, at as int, self.text@.len() as int) == indent_end(
                    self.text@,
                    i as int,
                    self.text@.len() as int,
                ),
            decreases self.text@.len() - at,
        {
            at += 1;
        }
        self.part(i, at)
    }

    fn first_word(&self, i: usize) -> (out: &'a str)
        requires
            self.wf(),
            i <= self.text@.len(),
        ensures
            out@ == first_word(self.text@, i as int),
    {
        let mut start: usize = i;
        while start < self.chars.len() && is_whitespace(self.chars[start])
            invariant
                self.wf(),
                i <= start <= self.text@.len(),
                space_end(self.text@, start as int) == space_end(self.text@, i as int),
            decreases self.text@.len() - start,
        {
            start += 1;
        }
        let mut end: usize = start;
        while end < self.chars.len() && !is_whitespace(self.chars[end])
            invariant
                self.wf(),
                start <= end <= self.text@.len(),
                word_end(self.text@, end as int) == word_end(self.text@, start as int),
            decreases self.text@.len() - end,
        {
            end += 1;
        }
        if start < end {
            self.part(start, end)
        } else {
            "?"
        }
    }
}

fn lead_of(text: &str) -> (out: &'static str)
    ensures
        out@ == line_lead(text@),
{
    match crate::text::last_char(text) {
        Some('\n') => "",
        Some(_) => "\n",
        None => "",
    }
}

pub(crate) fn span_at_end(text: &str) -> (out: Span)
    ensures
        out == end_span(text@),
{
    let at = byte_len(text) as u32;
    Span { start: at, end: at }
}

// ---------------------------------------------------------------------------
// Missing `End`
// ---------------------------------------------------------------------------
/// The fix for one structural error: an unterminated scope that meets the
/// range is closed at the end of the text, with the indentation of its header
/// line.
pub open spec fn missing_end(
    error: SyntaxError,
    s: Seq<char>,
    range: Span,
    acc: Seq<FixView>,
) -> Seq<FixView> {
    let span = Span { start: error.start as u32, end: error.end as u32 };
    if error.kind != SyntaxErrorKind::UnterminatedBlock || !meets(span, range) {
        acc
    } else {
        match index_at(s, error.start as int, 0) {
            Some(i) => acc.push(
                FixView {
                    title: "Insert missing `End` for `"@ + first_word(s, i) + "`"@,
                    span: end_span(s),
                    new_text: line_lead(s) + blanks_at(s, line_begin(s, i)) + "End\n"@,
                },
            ),
            None => acc,
        }
    }
}

pub open spec fn missing_ends(
    errors: Seq<SyntaxError>,
    s: Seq<char>,
    range: Span,
    acc: Seq<FixView>,
) -> Seq<FixView>
    decreases errors.len(),
{
    if errors.len() == 0 {
        acc
    } else {
        missing_end(errors.last(), s, range, missing_ends(errors.drop_last(), s, range, acc))
    }
}

/// For each unterminated scope intersecting `range`, offer to close it. The
/// parser reports these only at the end of the file (an open scope swallows
/// the rest), so the fix appends an `End` line there.
fn insert_missing_ends(errors: &Vec<SyntaxError>, source: &Source, range: Span, out: &mut Vec<Fix>)
    requires
        source.wf(),
    ensures
        fix_views(final(out)@) == missing_ends(
            errors@,
            source.text@,
            range,
            fix_views(old(out)@),
        ),
{
    let ghost start = fix_views(out@);
    let mut i: usize = 0;
    assert(errors@.take(0) =~= Seq::<SyntaxError>::empty());
    while i < errors.len()
        invariant
            source.wf(),
            i <= errors@.len(),
            fix_views(out@) == missing_ends(errors@.take(i as int), source.text@, range, start),
        decreases errors@.len() - i,
    {
        assert(errors@.take(i + 1).drop_last() =~= errors@.take(i as int));
        let error = &errors[i];
        let span = Span { start: error.start as u32, end: error.end as u32 };
        if error.kind == SyntaxErrorKind::UnterminatedBlock && meets_range(span, range) {
            if let Some(at) = source.index(error.start) {
                let head = source.first_word(at);
                let indent = source.blanks(source.line_begin(at));
                push_fix(
                    out,
                    cat3("Insert missing `End` for `", head, "`"),
                    span_at_end(source.text),
                    cat3(lead_of(source.text), indent, "End\n"),
                );
            }
        }
        i += 1;
    }
    assert(errors@.take(i as int) =~= errors@);
}

// ---------------------------------------------------------------------------
// Unreachable sets
// ---------------------------------------------------------------------------
/// The module tags below an element, after `acc`.
pub open spec fn element_tags(e: ElementView, acc: Seq<Seq<char>>) -> Seq<Seq<char>>
    decreases e,
{
    match e {
        ElementView::Token(_) => acc,
        ElementView::Node(node) => {
            let own = match node.after_equals(1) {
                Some(tag) => if node.kind == SyntaxKind::MODULE {
                    acc.push(tag.text)
                } else {
                    acc
                },
                None => acc,
            };
            tags_below(node.children, own)
        },
    }
}

pub open spec fn tags_below(elements: Seq<ElementView>, acc: Seq<Seq<char>>) -> Seq<Seq<char>>
    decreases elements,
{
    if elements.len() == 0 {
        acc
    } else {
        element_tags(elements.last(), tags_below(elements.drop_last(), acc))
    }
}

/// A generated module tag.
pub open spec fn tag_name(n: nat) -> Seq<char> {
    if n < 10 {
        "ModuleTag_0"@ + decimal(n)
    } else {
        "ModuleTag_"@ + decimal(n)
    }
}

/// The first number from `n` on whose tag is not used, looking at most `more`
/// numbers ahead.
pub open spec fn free_number(used: Seq<Seq<char>>, n: nat, more: nat) -> nat
    decreases more,
{
    if more == 0 || !lists_name(used, tag_name(n)) {
        n
    } else {
        free_number(used, n + 1, (more - 1) as nat)
    }
}

/// A generated tag that none of `used` equals, in any case.
pub open spec fn free_tag(used: Seq<Seq<char>>) -> Seq<char> {
    tag_name(free_number(used, 1, used.len()))
}

/// The last `End` among the direct tokens of a scope.
pub open spec fn end_token(children: Seq<ElementView>) -> Option<LeafView>
    decreases children.len(),
{
    if children.len() == 0 {
        None
    } else {
        match children.last() {
            ElementView::Token(leaf) => if leaf.kind == SyntaxKind::WORD && same_ignoring_case(
                leaf.text,
                "end"@,
            ) {
                Some(leaf)
            } else {
                end_token(children.drop_last())
            },
            ElementView::Node(_) => end_token(children.drop_last()),
        }
    }
}

/// Where a module is added to an object: before its `End` line, or at its end.
pub open spec fn insertion_point(object: NodeView, offset: int, s: Seq<char>) -> u32 {
    match end_token(object.children) {
        Some(leaf) => match index_at(s, leaf_span(leaf, offset).start as int, 0) {
            Some(i) => byte_at(s, line_begin(s, i)) as u32,
            None => node_span(object, offset).end,
        },
        None => node_span(object, offset).end,
    }
}

/// The indentation of a node's header line.
pub open spec fn header_indent(node: NodeView, offset: int, s: Seq<char>) -> Seq<char> {
    match index_at(s, node_span(node, offset).start as int, 0) {
        Some(i) => blanks_at(s, i),
        None => ""@,
    }
}

/// The fixes so far, the codes with a suppression offered, and the (object,
/// module) pairs with a scaffold offered.
#[verifier::ext_equal]
pub struct FixState {
    pub out: Seq<FixView>,
    pub codes: Seq<Seq<char>>,
    pub scaffolds: Seq<(u32, Seq<char>)>,
}

/// The module that makes a set reachable.
pub open spec fn trigger_of(slot: Seq<char>) -> Option<Seq<char>> {
    if slot == "WeaponSet"@ {
        Some("WeaponSetUpgrade"@)
    } else if slot == "ArmorSet"@ {
        Some("ArmorUpgrade"@)
    } else {
        None
    }
}

/// The fixes for a dead set: remove it, or add a module that triggers it.
pub open spec fn dead_set_step(
    nodes: Seq<NodeView>,
    offset: int,
    s: Seq<char>,
    st: FixState,
) -> FixState {
    let set = nodes[nodes.len() - 2];
    match set.head_word() {
        None => st,
        Some(slot) => match trigger_of(slot.text) {
            None => st,
            Some(trigger) => {
                let removed = st.out.push(
                    FixView {
                        title: "Remove unreachable `"@ + slot.text + "`"@,
                        span: node_span(set, offset),
                        new_text: ""@,
                    },
                );
                let b = last_of_kind(nodes.drop_last(), SyntaxKind::BLOCK);
                if b < 0 {
                    FixState { out: removed, ..st }
                } else {
                    let object = nodes[b];
                    let key = (node_span(object, offset).start, trigger);
                    if st.scaffolds.contains(key) {
                        FixState { out: removed, ..st }
                    } else {
                        let at = insertion_point(object, offset, s);
                        let indent = header_indent(set, offset, s);
                        let tag = free_tag(element_tags(ElementView::Node(object), Seq::empty()));
                        FixState {
                            out: removed.push(
                                FixView {
                                    title: "Insert `"@ + trigger + "` trigger module"@,
                                    span: Span { start: at, end: at },
                                    new_text: indent + "Behavior = "@ + trigger + " "@ + tag + "\n"@
                                        + indent + "  TriggeredBy = Upgrade_TODO\n"@ + indent
                                        + "End\n"@,
                                },
                            ),
                            scaffolds: st.scaffolds.push(key),
                            ..st
                        }
                    }
                }
            },
        },
    }
}

/// The fix for an upgrade module without a set: add the set before it.
pub open spec fn idle_upgrade_step(
    nodes: Seq<NodeView>,
    offset: int,
    s: Seq<char>,
    st: FixState,
) -> FixState {
    let b = last_of_kind(nodes, SyntaxKind::BLOCK);
    if nodes.len() == 0 || nodes.last().kind != SyntaxKind::MODULE || b < 0 {
        st
    } else {
        let module = nodes.last();
        let key = (node_span(nodes[b], offset).start, "WeaponSet"@);
        if st.scaffolds.contains(key) {
            st
        } else {
            let at = node_span(module, offset).start;
            let indent = header_indent(module, offset, s);
            FixState {
                out: st.out.push(
                    FixView {
                        title: "Insert `PLAYER_UPGRADE` WeaponSet"@,
                        span: Span { start: at, end: at },
                        new_text: indent + "WeaponSet\n"@ + indent
                            + "  Conditions = PLAYER_UPGRADE\n"@ + indent
                            + "  Weapon = PRIMARY NONE\n"@ + indent + "End\n"@,
                    },
                ),
                scaffolds: st.scaffolds.push(key),
                ..st
            }
        }
    }
}

/// The fixes for a finding about an unreachable set, at the end of `path`.
pub open spec fn unreachable_step(path: PathView, s: Seq<char>, st: FixState) -> FixState {
    let nodes = path.nodes;
    match path.token {
        None => st,
        Some(token) => if nodes.len() >= 2 && nodes[nodes.len() - 2].kind == SyntaxKind::MODULE {
            dead_set_step(nodes, path.offset, s, st)
        } else if same_ignoring_case(token.text, "WeaponSetUpgrade"@) {
            idle_upgrade_step(nodes, path.offset, s, st)
        } else {
            st
        },
    }
}

fn collect_tags<'a>(node: &'a SyntaxNode, out: &mut Vec<&'a str>)
    ensures
        str_views(final(out)@) == element_tags(
            ElementView::Node(node.view()),
            str_views(old(out)@),
        ),
    decreases node,
{
    let ghost before = str_views(out@);
    if node.kind == SyntaxKind::MODULE {
        if let Some(tag) = Module(node).tag() {
            out.push(tag.text.as_str());
            assert(str_views(out@) =~= before.push(tag.text@));
        }
    }
    let ghost start = str_views(out@);
    let ghost all = views(node.children@);
    let mut i: usize = 0;
    assert(all.take(0) =~= Seq::<ElementView>::empty());
    while i < node.children.len()
        invariant
            i <= node.children@.len(),
            all == views(node.children@),
            str_views(out@) == tags_below(all.take(i as int), start),
        decreases node.children@.len() - i,
    {
        proof {
            assert(all.take(i + 1).drop_last() =~= all.take(i as int));
            assert(all.take(i + 1).last() == node.children@[i as int].view());
            assert(decreases_to!(node => node.children));
            assert(decreases_to!(node.children@ => node.children@[i as int]));
        }
        let ghost seen = str_views(out@);
        if let SyntaxElement::Node(child) = &node.children[i] {
            assert(decreases_to!(node.children@[i as int] => node.children@[i as int]->Node_0));
            collect_tags(child, out);
        }
        assert(str_views(out@) == element_tags(all[i as int], seen));
        i += 1;
    }
    assert(all.take(i as int) =~= all);
}

fn name_tag(n: u128) -> (out: String)
    ensures
        out@ == tag_name(n as nat),
{
    let digits = to_decimal(n);
    if n < 10 {
        cat2("ModuleTag_0", digits.as_str())
    } else {
        cat2("ModuleTag_", digits.as_str())
    }
}

fn unused_tag(used: &Vec<&str>) -> (out: String)
    ensures
        out@ == free_tag(str_views(used@)),
{
    let ghost all = str_views(used@);
    let count = used.len();
    let mut n: u128 = 1;
    let mut tag = name_tag(1);
    let mut more: usize = count;
    while more > 0 && name_listed(used, tag.as_str())
        invariant
            all == str_views(used@),
            count == used@.len(),
            more <= count,
            n == 1 + count - more,
            tag@ == tag_name(n as nat),
            free_number(all, n as nat, more as nat) == free_number(all, 1, count as nat),
        decreases more,
    {
        more -= 1;
        n = 1 + (count - more) as u128;
        tag = name_tag(n);
    }
    tag
}

fn find_end_token<'a>(node: &'a SyntaxNode) -> (out: Option<&'a SyntaxToken>)
    ensures
        opt_leaf(out) == end_token(node.view().children),
{
    let ghost all = views(node.children@);
    let mut i: usize = node.children.len();
    assert(all.take(i as int) =~= all);
    while i > 0
        invariant
            i <= node.children@.len(),
            all == views(node.children@),
            end_token(all.take(i as int)) == end_token(all),
        decreases i,
    {
        proof {
            assert(all.take(i as int).drop_last() =~= all.take(i - 1));
            assert(all.take(i as int).last() == node.children@[i - 1].view());
        }
        if let SyntaxElement::Token(token) = &node.children[i - 1] {
            if token.kind == SyntaxKind::WORD && token.text.as_str().eq_ignore_ascii_case("end") {
                return Some(token);
            }
        }
        i -= 1;
    }
    None
}

/// Where a module is added to an object: before its `End` line, or at its end.
fn insert_at(object: &SyntaxNode, offset: u32, source: &Source) -> (at: u32)
    requires
        source.wf(),
    ensures
        at == insertion_point(object.view(), offset as int, source.text@),
{
    let end = rebase(offset, object.start, object.end).end;
    match find_end_token(object) {
        Some(token) => {
            let start = rebase(offset, token.start, token.end).start;
            match source.index(start as usize) {
                Some(i) => source.offsets[source.line_begin(i)] as u32,
                None => end,
            }
        },
        None => end,
    }
}

fn leading_indent<'a>(node: &SyntaxNode, offset: u32, source: &Source<'a>) -> (out: &'a str)
    requires
        source.wf(),
    ensures
        out@ == header_indent(node.view(), offset as int, source.text@),
{
    let start = rebase(offset, node.start, node.end).start;
    match source.index(start as usize) {
        Some(i) => source.blanks(i),
        None => "",
    }
}

spec fn scaffold_views(s: Seq<(u32, &'static str)>) -> Seq<(u32, Seq<char>)> {
    Seq::new(s.len(), |i: int| (s[i].0, s[i].1@))
}

/// The state of the diagnostic-backed fixes.
struct Fixes {
    out: Vec<Fix>,
    codes: Vec<&'static str>,
    scaffolds: Vec<(u32, &'static str)>,
}

impl Fixes {
    spec fn view(&self) -> FixState {
        FixState {
            out: fix_views(self.out@),
            codes: str_views(self.codes@),
            scaffolds: scaffold_views(self.scaffolds@),
        }
    }

    /// Records a scaffold; false if it was recorded before.
    fn first_scaffold(&mut self, start: u32, module: &'static str) -> (first: bool)
        ensures
            first == !old(self).view().scaffolds.contains((start, module@)),
            final(self).view() == if first {
                FixState {
                    scaffolds: old(self).view().scaffolds.push((start, module@)),
                    ..old(self).view()
                }
            } else {
                old(self).view()
            },
    {
        let ghost all = scaffold_views(self.scaffolds@);
        let ghost was = self.view();
        let mut i: usize = 0;
        while i < self.scaffolds.len()
            invariant
                i <= self.scaffolds@.len(),
                all == scaffold_views(self.scaffolds@),
                self.view() == was,
                was == old(self).view(),
                all == was.scaffolds,
                forall|k: int| 0 <= k < i ==> #[trigger] all[k] != (start, module@),
            decreases self.scaffolds@.len() - i,
        {
            assert(all[i as int] == (self.scaffolds@[i as int].0, self.scaffolds@[i as int].1@));
            if self.scaffolds[i].0 == start && same(self.scaffolds[i].1, module) {
                assert(all.contains((start, module@)));
                return false;
            }
            i += 1;
        }
        assert(!all.contains((start, module@)));
        self.scaffolds.push((start, module));
        assert(scaffold_views(self.scaffolds@) =~= all.push((start, module@)));
        true
    }
}

fn dead_set_fixes(nodes: &Vec<&SyntaxNode>, offset: u32, source: &Source, state: &mut Fixes)
    requires
        source.wf(),
        nodes@.len() >= 2,
    ensures
        final(state).view() == dead_set_step(
            node_views(nodes@),
            offset as int,
            source.text@,
            old(state).view(),
        ),
{
    let n = nodes.len();
    let set = nodes[n - 2];
    let slot = match Module(set).slot() {
        Some(slot) => slot,
        None => {
            return ;
        },
    };
    let keyword = slot.text.as_str();
    let trigger: &'static str = if same(keyword, "WeaponSet") {
        "WeaponSetUpgrade"
    } else if same(keyword, "ArmorSet") {
        "ArmorUpgrade"
    } else {
        return ;
    };
    // Remove the whole sub-block: its range covers the leading indent through
    // the `End` line.
    push_fix(
        &mut state.out,
        cat3("Remove unreachable `", keyword, "`"),
        rebase(offset, set.start, set.end),
        "".to_owned(),
    );
    // Insert the trigger module before the object's `End` line.
    let b = find_last(&outer_nodes(nodes), SyntaxKind::BLOCK);
    if b == 0 {
        return ;
    }
    let object = nodes[b - 1];
    let start = rebase(offset, object.start, object.end).start;
    if !state.first_scaffold(start, trigger) {
        return ;
    }
    let mut used: Vec<&str> = Vec::new();
    assert(str_views(used@) =~= Seq::<Seq<char>>::empty());
    collect_tags(object, &mut used);
    let tag = unused_tag(&used);
    let at = insert_at(object, offset, source);
    let indent = leading_indent(set, offset, source);
    let mut text = cat5(indent, "Behavior = ", trigger, " ", tag.as_str());
    text.append("\n");
    text.append(indent);
    text.append("  TriggeredBy = Upgrade_TODO\n");
    text.append(indent);
    text.append("End\n");
    push_fix(
        &mut state.out,
        cat3("Insert `", trigger, "` trigger module"),
        Span { start: at, end: at },
        text,
    );
}

fn unused_weapon_set_upgrade_fix(
    nodes: &Vec<&SyntaxNode>,
    offset: u32,
    source: &Source,
    state: &mut Fixes,
)
    requires
        source.wf(),
    ensures
        final(state).view() == idle_upgrade_step(
            node_views(nodes@),
            offset as int,
            source.text@,
            old(state).view(),
        ),
{
    let n = nodes.len();
    if n == 0 {
        return ;
    }
    let module = nodes[n - 1];
    let b = find_last(nodes, SyntaxKind::BLOCK);
    if module.kind != SyntaxKind::MODULE || b == 0 {
        return ;
    }
    let object = nodes[b - 1];
    let start = rebase(offset, object.start, object.end).start;
    if !state.first_scaffold(start, "WeaponSet") {
        return ;
    }
    let at = rebase(offset, module.start, module.end).start;
    let indent = leading_indent(module, offset, source);
    let mut text = cat2(indent, "WeaponSet\n");
    text.append(indent);
    text.append("  Conditions = PLAYER_UPGRADE\n");
    text.append(indent);
    text.append("  Weapon = PRIMARY NONE\n");
    text.append(indent);
    text.append("End\n");
    push_fix(
        &mut state.out,
        "Insert `PLAYER_UPGRADE` WeaponSet".to_owned(),
        Span { start: at, end: at },
        text,
    );
}

/// For an `unreachable-set` diagnostic offer the mechanical counterpart:
/// remove/scaffold for dead sets, or add the missing set for a useless upgrade.
fn unreachable_set_fixes(parse: &Parse, source: &Source, d: &Diagnostic, state: &mut Fixes)
    requires
        source.wf(),
    ensures
        final(state).view() == unreachable_step(
            path_of(
                child_views(parse.children@),
                parse.len as int,
                d.span.start as int,
                Bias::Right,
            ),
            source.text@,
            old(state).view(),
        ),
{
    let path = path_at(parse, d.span.start, Bias::Right);
    let token = match path.token {
        Some(token) => token,
        None => {
            return ;
        },
    };
    let n = path.nodes.len();
    if n >= 2 && path.nodes[n - 2].kind == SyntaxKind::MODULE {
        dead_set_fixes(&path.nodes, path.offset, source, state);
    } else if token.text.as_str().eq_ignore_ascii_case("WeaponSetUpgrade") {
        unused_weapon_set_upgrade_fix(&path.nodes, path.offset, source, state);
    }
}

// ---------------------------------------------------------------------------
// Stub definitions
// ---------------------------------------------------------------------------
/// The number of blocks that define a kind.
pub open spec fn definers(blocks: Seq<BlockType>, kind: RefKind) -> Seq<Seq<char>>
    decreases blocks.len(),
{
    if blocks.len() == 0 {
        Seq::empty()
    } else if blocks.last().defines == Some(kind) {
        definers(blocks.drop_last(), kind).push(blocks.last().name@)
    } else {
        definers(blocks.drop_last(), kind)
    }
}

/// The single block keyword that defines a kind; of several, `Object` is the
/// one for objects (a reskin needs a parent and is no stub).
pub open spec fn stub_word(blocks: Seq<BlockType>, kind: RefKind) -> Option<Seq<char>> {
    let names = definers(blocks, kind);
    if kind == RefKind::Object && names.len() > 0 {
        Some("Object"@)
    } else if names.len() == 1 {
        Some(names[0])
    } else {
        None
    }
}

/// Whether a name holds whitespace, so that it cannot be a block header.
pub open spec fn has_space(name: Seq<char>) -> bool {
    exists|i: int| 0 <= i < name.len() && whitespace(#[trigger] name[i])
}

/// The fix for an unresolved reference: a stub definition at the end of the
/// file.
pub open spec fn stub_fix(
    schema: Schema,
    reference: Option<ReferenceView>,
    index: Option<IndexView>,
    s: Seq<char>,
    acc: Seq<FixView>,
) -> Seq<FixView> {
    match reference {
        None => acc,
        Some(found) => {
            let defined = match index {
                Some(index) => index.defines(found.kind, found.name),
                None => false,
            };
            match stub_word(schema.blocks@, found.kind) {
                Some(keyword) => if has_space(found.name) || defined {
                    acc
                } else {
                    acc.push(
                        FixView {
                            title: "Create stub `"@ + keyword + " "@ + found.name + "`"@,
                            span: end_span(s),
                            new_text: line_lead(s) + "\n"@ + keyword + " "@ + found.name
                                + "\nEnd\n"@,
                        },
                    )
                },
                None => acc,
            }
        },
    }
}

fn definer_names<'a>(blocks: &'a Vec<BlockType>, kind: RefKind) -> (out: Vec<&'a str>)
    ensures
        str_views(out@) == definers(blocks@, kind),
{
    let mut out: Vec<&'a str> = Vec::new();
    let mut i: usize = 0;
    assert(str_views(out@) =~= definers(blocks@.take(0), kind));
    while i < blocks.len()
        invariant
            i <= blocks@.len(),
            str_views(out@) == definers(blocks@.take(i as int), kind),
        decreases blocks@.len() - i,
    {
        assert(blocks@.take(i + 1).drop_last() =~= blocks@.take(i as int));
        let ghost before = str_views(out@);
        if let Some(defined) = blocks[i].defines {
            if defined == kind {
                out.push(blocks[i].name.as_str());
                assert(str_views(out@) =~= before.push(blocks@[i as int].name@));
            }
        }
        i += 1;
    }
    assert(blocks@.take(i as int) =~= blocks@);
    out
}

fn stub_keyword<'a>(analyzer: &'a Analyzer, kind: RefKind) -> (out: Option<&'a str>)
    ensures
        opt_text(out) == stub_word(analyzer.schema.blocks@, kind),
{
    let names = definer_names(&analyzer.schema.blocks, kind);
    assert(str_views(names@).len() == names@.len());
    if kind == RefKind::Object && names.len() > 0 {
        return Some("Object");
    }
    if names.len() == 1 {
        assert(str_views(names@)[0] == names@[0]@);
        Some(names[0])
    } else {
        None
    }
}

fn holds_space(name: &str) -> (yes: bool)
    ensures
        yes == has_space(name@),
{
    let chars = chars_of(name);
    let mut i: usize = 0;
    while i < chars.len()
        invariant
            chars@ == name@,
            i <= chars@.len(),
            forall|k: int| 0 <= k < i ==> !whitespace(#[trigger] name@[k]),
        decreases chars@.len() - i,
    {
        if is_whitespace(chars[i]) {
            assert(whitespace(name@[i as int]));
            return true;
        }
        i += 1;
    }
    false
}

/// For an `unresolved-reference` diagnostic, offer to append a stub definition
/// at the end of the current file.
fn stub_definition_fix(
    analyzer: &Analyzer,
    parse: &Parse,
    text: &str,
    d: &Diagnostic,
    index: Option<&WorkspaceIndex>,
    out: &mut Vec<Fix>,
)
    ensures
        fix_views(final(out)@) == stub_fix(
            analyzer.schema,
            path_reference(
                analyzer.schema,
                path_of(
                    child_views(parse.children@),
                    parse.len as int,
                    d.span.start as int,
                    Bias::Right,
                ),
            ),
            opt_index_view(index),
            text@,
            fix_views(old(out)@),
        ),
{
    let found = match reference_at(analyzer, parse, d.span.start) {
        Some(found) => found,
        None => {
            return ;
        },
    };
    let keyword = match stub_keyword(analyzer, found.kind) {
        Some(keyword) => keyword,
        None => {
            return ;
        },
    };
    let name = found.name.as_str();
    if holds_space(name) {
        return ;
    }
    if let Some(index) = index {
        if index.is_defined(found.kind, name) {
            return ;
        }
    }
    let mut stub = cat5(lead_of(text), "\n", keyword, " ", name);
    stub.append("\nEnd\n");
    push_fix(
        out,
        cat5("Create stub `", keyword, " ", name, "`"),
        span_at_end(text),
        stub,
    );
}

// ---------------------------------------------------------------------------
// Suppressions
// ---------------------------------------------------------------------------
/// The code list of a pragma comment at file scope.
pub open spec fn code_list(child: ChildView) -> Option<Seq<char>> {
    match child.element {
        ElementView::Token(token) => match list_start(token.text) {
            Some(at) => if token.kind == SyntaxKind::COMMENT {
                Some(token.text.skip(at))
            } else {
                None
            },
            None => None,
        },
        ElementView::Node(_) => None,
    }
}

/// Whether a code list names a code.
pub open spec fn names_code(list: Seq<char>, code: Seq<char>) -> bool {
    exists|i: int| #![trigger words_of(list)[i]]
        0 <= i < words_of(list).len() && list.subrange(words_of(list)[i].0, words_of(list)[i].1)
            == code
}

/// Whether some pragma names a code.
pub open spec fn suppresses(children: Seq<ChildView>, code: Seq<char>) -> bool {
    exists|i: int|
        0 <= i < children.len() && code_list(#[trigger] children[i]) is Some && names_code(
            code_list(children[i])->0,
            code,
        )
}

/// The first pragma from `i` on, or the number of elements.
pub open spec fn first_pragma(children: Seq<ChildView>, i: int) -> int
    decreases children.len() - i,
{
    if i < 0 || i >= children.len() || code_list(children[i]) is Some {
        i
    } else {
        first_pragma(children, i + 1)
    }
}

/// The fix that suppresses a code: it joins the first pragma, or a new pragma
/// goes to the top of the file.
pub open spec fn suppression(
    children: Seq<ChildView>,
    s: Seq<char>,
    code: Seq<char>,
    acc: Seq<FixView>,
) -> Seq<FixView> {
    let title = "Suppress `"@ + code + "` in this file"@;
    let i = first_pragma(children, 0);
    if suppresses(children, code) {
        acc
    } else if i < children.len() {
        let token = children[i].element->Token_0;
        let end = leaf_span(token, children[i].offset).end;
        let at = if token.text.len() > 0 && token.text.last() == '\r' {
            end.wrapping_sub(1)
        } else {
            end
        };
        acc.push(
            FixView {
                title,
                span: Span { start: at, end: at },
                new_text: if words_of(code_list(children[i])->0).len() > 0 {
                    ", "@ + code
                } else {
                    " "@ + code
                },
            },
        )
    } else {
        let at: u32 = if s.len() > 0 && s[0] == '\u{feff}' {
            3
        } else {
            0
        };
        acc.push(
            FixView {
                title,
                span: Span { start: at, end: at },
                new_text: "; zerosyntax-disable: "@ + code + "\n"@,
            },
        )
    }
}

/// Whether a code list names a code.
fn list_names(rest: &str, code: &str) -> (yes: bool)
    ensures
        yes == names_code(rest@, code@),
{
    let words = pragma_words(rest);
    let ghost all = words_of(rest@);
    let mut i: usize = 0;
    assert(range_views(words@).len() == byte_ranges(rest@, all).len());
    while i < words.len()
        invariant
            i <= words@.len(),
            words@.len() == all.len(),
            all == words_of(rest@),
            range_views(words@) == byte_ranges(rest@, all),
            forall|k: int| #![trigger all[k]]
                0 <= k < i ==> rest@.subrange(all[k].0, all[k].1) != code@,
        decreases words@.len() - i,
    {
        proof {
            assert(range_views(words@)[i as int] == (
                words@[i as int].0 as int,
                words@[i as int].1 as int,
            ));
            assert(byte_ranges(rest@, all)[i as int] == (
                byte_at(rest@, all[i as int].0),
                byte_at(rest@, all[i as int].1),
            ));
            lemma_words_inside(rest@, i as int);
        }
        let (from, to) = words[i];
        let word = slice(rest, from, to, Ghost(all[i as int].0), Ghost(all[i as int].1));
        if same(word, code) {
            assert(all[i as int] == words_of(rest@)[i as int]);
            return true;
        }
        i += 1;
    }
    false
}

/// Offer to add `; zerosyntax-disable: <code>` at the top of the file (or
/// append to an existing pragma line) for a diagnostic.
fn suppress_fix(parse: &Parse, text: &str, code: &str, out: &mut Vec<Fix>)
    ensures
        fix_views(final(out)@) == suppression(
            child_views(parse.children@),
            text@,
            code@,
            fix_views(old(out)@),
        ),
{
    let ghost all = child_views(parse.children@);
    let count = parse.children.len();
    let mut first: usize = count;
    let mut at: u32 = 0;
    let mut has_words = false;
    let mut i: usize = 0;
    while i < count
        invariant
            count == parse.children@.len(),
            all == child_views(parse.children@),
            i <= count,
            forall|k: int|
                0 <= k < i ==> !(code_list(#[trigger] all[k]) is Some && names_code(
                    code_list(all[k])->0,
                    code@,
                )),
            first == count ==> first_pragma(all, 0) == first_pragma(all, i as int),
            first < count ==> {
                &&& first_pragma(all, 0) == first
                &&& all[first as int].element is Token
                &&& has_words == (words_of(code_list(all[first as int])->0).len() > 0)
                &&& at == {
                    let token = all[first as int].element->Token_0;
                    let end = leaf_span(token, all[first as int].offset).end;
                    if token.text.len() > 0 && token.text.last() == '\r' {
                        end.wrapping_sub(1)
                    } else {
                        end
                    }
                }
            },
            first <= count,
        decreases count - i,
    {
        let child = &parse.children[i];
        assert(all[i as int] == child.view());
        let element: &SyntaxElement = &child.element;
        if let SyntaxElement::Token(token) = element {
            if let Some((_, rest)) = pragma_rest(token) {
                assert(code_list(all[i as int]) == Some(rest@));
                if list_names(rest, code) {
                    assert(suppresses(all, code@));
                    return ;
                }
                if first == count {
                    let end = rebase(child.offset, token.start, token.end).end;
                    // A comment holds the carriage return of its line ending;
                    // insert before it.
                    at = match crate::text::last_char(token.text.as_str()) {
                        Some('\r') => end.wrapping_sub(1),
                        _ => end,
                    };
                    let words = pragma_words(rest);
                    assert(range_views(words@).len() == byte_ranges(
                        rest@,
                        words_of(rest@),
                    ).len());
                    has_words = words.len() > 0;
                    first = i;
                }
            }
        }
        i += 1;
    }
    let title = cat3("Suppress `", code, "` in this file");
    if first < count {
        let lead = if has_words {
            ", "
        } else {
            " "
        };
        push_fix(out, title, Span { start: at, end: at }, cat2(lead, code));
    } else {
        // A byte order mark stays in front.
        let top: u32 = match crate::text::first_char(text) {
            Some('\u{feff}') => 3,
            _ => 0,
        };
        push_fix(
            out,
            title,
            Span { start: top, end: top },
            cat3("; zerosyntax-disable: ", code, "\n"),
        );
    }
}

// ---------------------------------------------------------------------------
// All fixes
// ---------------------------------------------------------------------------
/// The fixes for one diagnostic that meets the range.
pub open spec fn diagnostic_step(
    schema: Schema,
    parse: Parse,
    s: Seq<char>,
    d: DiagnosticView,
    index: Option<IndexView>,
    st: FixState,
) -> FixState {
    let children = child_views(parse.children@);
    let path = path_of(children, parse.len as int, d.span.start as int, Bias::Right);
    let fixed = if d.code == "unreachable-set"@ {
        unreachable_step(path, s, st)
    } else if d.code == "unresolved-reference"@ {
        FixState {
            out: stub_fix(schema, path_reference(schema, path), index, s, st.out),
            ..st
        }
    } else {
        st
    };
    if d.code != "unknown-suppression"@ && !fixed.codes.contains(d.code) {
        FixState {
            out: suppression(children, s, d.code, fixed.out),
            codes: fixed.codes.push(d.code),
            ..fixed
        }
    } else {
        fixed
    }
}

pub open spec fn diagnostic_steps(
    schema: Schema,
    parse: Parse,
    s: Seq<char>,
    range: Span,
    diags: Seq<DiagnosticView>,
    index: Option<IndexView>,
    st: FixState,
) -> FixState
    decreases diags.len(),
{
    if diags.len() == 0 {
        st
    } else {
        let rest = diagnostic_steps(schema, parse, s, range, diags.drop_last(), index, st);
        if meets(diags.last().span, range) {
            diagnostic_step(schema, parse, s, diags.last(), index, rest)
        } else {
            rest
        }
    }
}

/// All fixes within `range`.
pub open spec fn fixes_of(
    schema: Schema,
    parse: Parse,
    s: Seq<char>,
    range: Span,
    diags: Seq<DiagnosticView>,
    index: Option<IndexView>,
) -> Seq<FixView> {
    let ends = missing_ends(parse.errors@, s, range, Seq::empty());
    let members = suggestions_of(schema, child_views(parse.children@), range, ends);
    diagnostic_steps(
        schema,
        parse,
        s,
        range,
        diags,
        index,
        FixState { out: members, codes: Seq::empty(), scaffolds: Seq::empty() },
    ).out
}

fn code_seen(codes: &Vec<&'static str>, code: &str) -> (seen: bool)
    ensures
        seen == str_views(codes@).contains(code@),
{
    let ghost all = str_views(codes@);
    let mut i: usize = 0;
    while i < codes.len()
        invariant
            i <= codes@.len(),
            all == str_views(codes@),
            forall|k: int| 0 <= k < i ==> #[trigger] all[k] != code@,
        decreases codes@.len() - i,
    {
        assert(all[i as int] == codes@[i as int]@);
        if same(codes[i], code) {
            assert(all.contains(code@));
            return true;
        }
        i += 1;
    }
    false
}

fn diagnostic_fix(
    analyzer: &Analyzer,
    parse: &Parse,
    source: &Source,
    d: &Diagnostic,
    index: Option<&WorkspaceIndex>,
    state: &mut Fixes,
)
    requires
        source.wf(),
    ensures
        final(state).view() == diagnostic_step(
            analyzer.schema,
            *parse,
            source.text@,
            d.view(),
            opt_index_view(index),
            old(state).view(),
        ),
{
    if same(d.code, "unreachable-set") {
        unreachable_set_fixes(parse, source, d, state);
    } else if same(d.code, "unresolved-reference") {
        stub_definition_fix(analyzer, parse, source.text, d, index, &mut state.out);
    }
    // Suppressing the misspelled-suppression hint is self-defeating.
    if !same(d.code, "unknown-suppression") && !code_seen(&state.codes, d.code) {
        let ghost before = str_views(state.codes@);
        state.codes.push(d.code);
        assert(str_views(state.codes@) =~= before.push(d.code@));
        suppress_fix(parse, source.text, d.code, &mut state.out);
    }
}

/// All fixes applicable within `range` (the editor's selection/cursor line).
/// `diags` should be the suppression-filtered diagnostics for the document;
/// `index` is the workspace index for cross-file checks (e.g. stub creation).
pub fn fixes(
    analyzer: &Analyzer,
    parse: &Parse,
    text: &str,
    range: Span,
    diags: &[Diagnostic],
    index: Option<&WorkspaceIndex>,
) -> (out: Vec<Fix>)
    ensures
        fix_views(out@) == fixes_of(
            analyzer.schema,
            *parse,
            text@,
            range,
            diagnostic_views(diags@),
            opt_index_view(index),
        ),
{
    let source = Source::new(text);
    let mut out: Vec<Fix> = Vec::new();
    assert(fix_views(out@) =~= Seq::<FixView>::empty());
    insert_missing_ends(&parse.errors, &source, range, &mut out);
    suggest_members(analyzer, parse, range, &mut out);
    let mut state = Fixes { out, codes: Vec::new(), scaffolds: Vec::new() };
    proof {
        assert(str_views(state.codes@) =~= Seq::<Seq<char>>::empty());
        assert(scaffold_views(state.scaffolds@) =~= Seq::<(u32, Seq<char>)>::empty());
    }
    let ghost start = state.view();
    let ghost all = diagnostic_views(diags@);
    let mut i: usize = 0;
    assert(all.take(0) =~= Seq::<DiagnosticView>::empty());
    while i < diags.len()
        invariant
            source.wf(),
            source.text == text,
            i <= diags@.len(),
            all == diagnostic_views(diags@),
            state.view() == diagnostic_steps(
                analyzer.schema,
                *parse,
                text@,
                range,
                all.take(i as int),
                opt_index_view(index),
                start,
            ),
        decreases diags@.len() - i,
    {
        proof {
            assert(all.take(i + 1).drop_last() =~= all.take(i as int));
            assert(all.take(i + 1).last() == diags@[i as int].view());
        }
        if meets_range(diags[i].span, range) {
            diagnostic_fix(analyzer, parse, &source, &diags[i], index, &mut state);
        }
        i += 1;
    }
    assert(all.take(i as int) =~= all);
    state.out
}

} // verus!
