//! Suppression pragmas: a file-scope comment such as
//! `; zerosyntax-disable: unresolved-reference` drops every diagnostic with a
//! listed code from the file. Codes are separated by commas or blanks, the
//! colon is optional, and several pragmas accumulate.

use vstd::prelude::*;
use vstd::string::*;

use crate::checks::{diagnostic_views, Diagnostic, DiagnosticView, Severity};
use crate::index::{rebase, span_at};
use crate::kind::SyntaxKind;
use crate::lexer::byte_len;
use crate::parser::{child_views, Child, ChildView};
use crate::text::{
    blen, byte_at, cat3, char_width, chars_of, has_text, is_whitespace, lemma_byte_at_split,
    lemma_byte_at_step, same, slice, string_views, whitespace,
};
use crate::tree::{ElementView, LeafView, SyntaxElement, SyntaxToken};

verus! {

/// The characters that a scan of a pragma runs over.
#[derive(Debug, Clone, Copy, PartialEq, Eq, Structural)]
pub enum CharClass {
    Semicolon,
    Space,
    Separator,
    Word,
}

/// Whether a character separates the codes of a pragma.
pub open spec fn separates(c: char) -> bool {
    c == ' ' || c == '\t' || c == ',' || c == '\r'
}

pub open spec fn in_class(class: CharClass, c: char) -> bool {
    match class {
        CharClass::Semicolon => c == ';',
        CharClass::Space => whitespace(c),
        CharClass::Separator => separates(c),
        CharClass::Word => !separates(c),
    }
}

/// The end of the run of `class` that starts at `i`.
pub open spec fn skip(s: Seq<char>, i: int, class: CharClass) -> int
    decreases s.len() - i,
{
    if 0 <= i < s.len() && in_class(class, s[i]) {
        skip(s, i + 1, class)
    } else {
        i
    }
}

/// A run stays inside the text and ends where its class does.
pub proof fn lemma_skip(s: Seq<char>, i: int, class: CharClass)
    requires
        0 <= i <= s.len(),
    ensures
        i <= skip(s, i, class) <= s.len(),
        i < s.len() && in_class(class, s[i]) ==> i < skip(s, i, class),
        skip(s, i, class) < s.len() ==> !in_class(class, s[skip(s, i, class)]),
    decreases s.len() - i,
{
    if i < s.len() && in_class(class, s[i]) {
        lemma_skip(s, i + 1, class);
    }
}

/// Whether `word` stands at `i`.
pub open spec fn stands_at(s: Seq<char>, i: int, word: Seq<char>) -> bool {
    0 <= i && i + word.len() <= s.len() && s.subrange(i, i + word.len()) == word
}

/// The end of the pragma keyword at `i`.
pub open spec fn keyword_end(s: Seq<char>, i: int) -> Option<int> {
    if stands_at(s, i, "zerosyntax-disable"@) {
        Some(i + "zerosyntax-disable"@.len())
    } else if stands_at(s, i, "genparser-disable"@) {
        Some(i + "genparser-disable"@.len())
    } else {
        None
    }
}

/// Where the code list of a pragma comment begins.
pub open spec fn list_start(s: Seq<char>) -> Option<int> {
    match keyword_end(s, skip(s, skip(s, 0, CharClass::Semicolon), CharClass::Space)) {
        Some(end) => {
            let at = skip(s, end, CharClass::Space);
            if at < s.len() && s[at] == ':' {
                Some(at + 1)
            } else {
                Some(at)
            }
        },
        None => None,
    }
}

/// The words of a code list, as character ranges, appended to `acc`.
pub open spec fn words_from(s: Seq<char>, i: int, acc: Seq<(int, int)>) -> Seq<(int, int)>
    decreases s.len() - i,
{
    let start = skip(s, i, CharClass::Separator);
    if 0 <= i && start < s.len() {
        let end = skip(s, start, CharClass::Word);
        proof {
            lemma_skip(s, i, CharClass::Separator);
            lemma_skip(s, start, CharClass::Word);
        }
        words_from(s, end, acc.push((start, end)))
    } else {
        acc
    }
}

/// The words of a code list, as character ranges.
pub open spec fn words_of(s: Seq<char>) -> Seq<(int, int)> {
    words_from(s, 0, Seq::empty())
}

/// The byte ranges of the words of `s`.
pub open spec fn byte_ranges(s: Seq<char>, words: Seq<(int, int)>) -> Seq<(int, int)> {
    Seq::new(words.len(), |i: int| (byte_at(s, words[i].0), byte_at(s, words[i].1)))
}

pub open spec fn range_views(ranges: Seq<(usize, usize)>) -> Seq<(int, int)> {
    Seq::new(ranges.len(), |i: int| (ranges[i].0 as int, ranges[i].1 as int))
}

/// A position in a text, by character and by byte.
struct Cursor {
    index: usize,
    byte: usize,
}

impl Cursor {
    spec fn on(&self, s: Seq<char>) -> bool {
        &&& self.index <= s.len()
        &&& self.byte == byte_at(s, self.index as int)
    }
}

fn class_holds(class: CharClass, c: char) -> (yes: bool)
    ensures
        yes == in_class(class, c),
{
    match class {
        CharClass::Semicolon => c == ';',
        CharClass::Space => is_whitespace(c),
        CharClass::Separator => c == ' ' || c == '\t' || c == ',' || c == '\r',
        CharClass::Word => !(c == ' ' || c == '\t' || c == ',' || c == '\r'),
    }
}

proof fn lemma_cursor_bound(s: Seq<char>, i: int)
    requires
        0 <= i <= s.len(),
    ensures
        0 <= byte_at(s, i) <= blen(s),
{
    lemma_byte_at_split(s, i, s.len() as int);
    assert(s.take(s.len() as int) =~= s);
}

fn skip_run(chars: &Vec<char>, at: Cursor, class: CharClass) -> (out: Cursor)
    requires
        at.on(chars@),
        blen(chars@) <= usize::MAX,
    ensures
        out.on(chars@),
        out.index == skip(chars@, at.index as int, class),
{
    let mut index: usize = at.index;
    let mut byte: usize = at.byte;
    while index < chars.len() && class_holds(class, chars[index])
        invariant
            index <= chars@.len(),
            byte == byte_at(chars@, index as int),
            blen(chars@) <= usize::MAX,
            skip(chars@, index as int, class) == skip(chars@, at.index as int, class),
        decreases chars@.len() - index,
    {
        proof {
            lemma_byte_at_step(chars@, index as int);
            lemma_cursor_bound(chars@, index + 1);
        }
        byte = byte + char_width(chars[index]);
        index = index + 1;
    }
    Cursor { index, byte }
}

/// The word `word` at the cursor, or nothing.
fn accept(chars: &Vec<char>, at: &Cursor, word: &str) -> (out: Option<Cursor>)
    requires
        at.on(chars@),
        blen(chars@) <= usize::MAX,
    ensures
        match out {
            Some(end) => stands_at(chars@, at.index as int, word@) && end.on(chars@) && end.index
                == at.index + word@.len(),
            None => !stands_at(chars@, at.index as int, word@),
        },
{
    let letters = chars_of(word);
    let room = chars.len();
    if letters.len() > room - at.index {
        return None;
    }
    let mut i: usize = 0;
    while i < letters.len()
        invariant
            i <= letters@.len(),
            letters@ == word@,
            room == chars@.len(),
            at.index + letters@.len() <= room,
            forall|k: int| 0 <= k < i ==> chars@[at.index + k] == #[trigger] letters@[k],
        decreases letters@.len() - i,
    {
        if chars[at.index + i] != letters[i] {
            proof {
                assert(chars@.subrange(at.index as int, at.index + word@.len())[i as int]
                    == chars@[at.index + i]);
            }
            return None;
        }
        i += 1;
    }
    let index = at.index + letters.len();
    proof {
        assert(chars@.subrange(at.index as int, index as int) =~= word@);
        lemma_byte_at_split(chars@, at.index as int, index as int);
        lemma_cursor_bound(chars@, index as int);
    }
    let width = byte_len(word);
    Some(Cursor { index, byte: at.byte + width })
}

/// The code list of a pragma comment, with its byte offset in the comment.
pub(crate) fn pragma_rest<'a>(token: &'a SyntaxToken) -> (out: Option<(usize, &'a str)>)
    ensures
        match out {
            Some((byte, rest)) => {
                &&& token.kind == SyntaxKind::COMMENT
                &&& list_start(token.text@) is Some
                &&& byte == byte_at(token.text@, list_start(token.text@)->0)
                &&& rest@ == token.text@.skip(list_start(token.text@)->0)
                &&& byte + blen(rest@) == blen(token.text@)
            },
            None => token.kind != SyntaxKind::COMMENT || list_start(token.text@) is None,
        },
{
    if token.kind != SyntaxKind::COMMENT {
        return None;
    }
    let text = token.text.as_str();
    let len = byte_len(text);
    let chars = chars_of(text);
    assert(byte_at(chars@, 0) == 0) by {
        assert(chars@.take(0) =~= Seq::<char>::empty());
    }
    let semis = skip_run(&chars, Cursor { index: 0, byte: 0 }, CharClass::Semicolon);
    let head = skip_run(&chars, semis, CharClass::Space);
    let keyword = match accept(&chars, &head, "zerosyntax-disable") {
        Some(end) => end,
        None => match accept(&chars, &head, "genparser-disable") {
            Some(end) => end,
            None => {
                return None;
            },
        },
    };
    let mut at = skip_run(&chars, keyword, CharClass::Space);
    if at.index < chars.len() && chars[at.index] == ':' {
        proof {
            lemma_byte_at_step(chars@, at.index as int);
            lemma_cursor_bound(chars@, at.index + 1);
        }
        let width = char_width(chars[at.index]);
        at = Cursor { index: at.index + 1, byte: at.byte + width };
    }
    proof {
        lemma_byte_at_split(text@, at.index as int, text@.len() as int);
        assert(text@.subrange(at.index as int, text@.len() as int) =~= text@.skip(
            at.index as int,
        ));
        assert(text@.take(text@.len() as int) =~= text@);
    }
    let rest = slice(text, at.byte, len, Ghost(at.index as int), Ghost(text@.len() as int));
    Some((at.byte, rest))
}

/// The byte ranges of the words of a code list, which commas, blanks and
/// carriage returns separate.
pub fn pragma_words(rest: &str) -> (out: Vec<(usize, usize)>)
    ensures
        range_views(out@) == byte_ranges(rest@, words_of(rest@)),
{
    let len = byte_len(rest);
    let chars = chars_of(rest);
    let mut out: Vec<(usize, usize)> = Vec::new();
    let ghost mut words: Seq<(int, int)> = Seq::empty();
    assert(byte_at(chars@, 0) == 0) by {
        assert(chars@.take(0) =~= Seq::<char>::empty());
    }
    assert(range_views(out@) =~= byte_ranges(rest@, words));
    let mut at = skip_run(&chars, Cursor { index: 0, byte: 0 }, CharClass::Separator);
    let ghost mut from: int = 0;
    while at.index < chars.len()
        invariant
            chars@ == rest@,
            len == blen(rest@),
            at.on(chars@),
            0 <= from <= chars@.len(),
            at.index == skip(chars@, from, CharClass::Separator),
            words_of(rest@) == words_from(rest@, from, words),
            range_views(out@) == byte_ranges(rest@, words),
        decreases chars@.len() - at.index,
    {
        let ghost start = at.index as int;
        let from_byte = at.byte;
        proof {
            lemma_skip(chars@, from, CharClass::Separator);
            lemma_skip(chars@, start, CharClass::Word);
        }
        let end = skip_run(&chars, at, CharClass::Word);
        let ghost before = range_views(out@);
        out.push((from_byte, end.byte));
        proof {
            let grown = words.push((start, end.index as int));
            assert(range_views(out@) =~= before.push((from_byte as int, end.byte as int)));
            assert(byte_ranges(rest@, grown) =~= byte_ranges(rest@, words).push(
                (byte_at(rest@, start), byte_at(rest@, end.index as int)),
            ));
            words = grown;
            from = end.index as int;
            lemma_skip(chars@, from, CharClass::Separator);
        }
        at = skip_run(&chars, end, CharClass::Separator);
    }
    out
}

// ---------------------------------------------------------------------------
// Codes
// ---------------------------------------------------------------------------
/// Whether `word` is the code of a diagnostic.
pub open spec fn known_code(word: Seq<char>) -> bool {
    ||| word == "syntax"@
    ||| word == "stray-field"@
    ||| word == "unknown-block"@
    ||| word == "overrides"@
    ||| word == "duplicate-definition"@
    ||| word == "unreachable-set"@
    ||| word == "unknown-field"@
    ||| word == "missing-module-tag"@
    ||| word == "unknown-module"@
    ||| word == "missing-condition"@
    ||| word == "missing-value"@
    ||| word == "bad-bool"@
    ||| word == "non-positive"@
    ||| word == "bad-percent"@
    ||| word == "bad-color"@
    ||| word == "bad-coord"@
    ||| word == "bad-number"@
    ||| word == "bad-enum"@
    ||| word == "bad-flag"@
    ||| word == "unresolved-reference"@
    ||| word == "unknown-suppression"@
    ||| word == "module-wrong-slot"@
    ||| word == "duplicate-module-tag"@
    ||| word == "editor-default-module"@
    ||| word == "map-forward-reference"@
    ||| word == "map-projectile-object"@
    ||| word == "bad-prefixed"@
    ||| word == "unknown-model"@
    ||| word == "unknown-model-member"@
}

/// Whether `word` is the code of a diagnostic, so that a pragma may name it.
pub fn is_known_code(word: &str) -> (yes: bool)
    ensures
        yes == known_code(word@),
{
    same(word, "syntax") || same(word, "stray-field") || same(word, "unknown-block") || same(
        word,
        "overrides",
    ) || same(word, "duplicate-definition") || same(word, "unreachable-set") || same(
        word,
        "unknown-field",
    ) || same(word, "missing-module-tag") || same(word, "unknown-module") || same(
        word,
        "missing-condition",
    ) || same(word, "missing-value") || same(word, "bad-bool") || same(word, "non-positive")
        || same(word, "bad-percent") || same(word, "bad-color") || same(word, "bad-coord") || same(
        word,
        "bad-number",
    ) || same(word, "bad-enum") || same(word, "bad-flag") || same(word, "unresolved-reference")
        || same(word, "unknown-suppression") || same(word, "module-wrong-slot") || same(
        word,
        "duplicate-module-tag",
    ) || same(word, "editor-default-module") || same(word, "map-forward-reference") || same(
        word,
        "map-projectile-object",
    ) || same(word, "bad-prefixed") || same(word, "unknown-model") || same(
        word,
        "unknown-model-member",
    )
}

// ---------------------------------------------------------------------------
// Suppressions of a document
// ---------------------------------------------------------------------------
/// What the pragmas of a document say: the suppressed codes, and a hint for
/// each word that is no code.
#[verifier::ext_equal]
pub struct SuppressView {
    pub codes: Seq<Seq<char>>,
    pub hints: Seq<DiagnosticView>,
}

/// A position inside a token, relative to the token's top-level element.
pub open spec fn position_in(start: int, list: int, byte: int) -> u32 {
    (start as u32).wrapping_add(list as u32).wrapping_add(byte as u32)
}

/// The effect of one word of a pragma.
pub open spec fn word_step(
    st: SuppressView,
    offset: int,
    token: LeafView,
    word: (int, int),
) -> SuppressView {
    let at = list_start(token.text)->0;
    let rest = token.text.skip(at);
    let text = rest.subrange(word.0, word.1);
    if known_code(text) {
        SuppressView { codes: st.codes.push(text), ..st }
    } else {
        let list = byte_at(token.text, at);
        SuppressView {
            hints: st.hints.push(
                DiagnosticView {
                    span: span_at(
                        offset as u32,
                        position_in(token.start, list, byte_at(rest, word.0)),
                        position_in(token.start, list, byte_at(rest, word.1)),
                    ),
                    severity: Severity::Hint,
                    code: "unknown-suppression"@,
                    message: "`"@ + text + "` is not a known diagnostic code"@,
                },
            ),
            ..st
        }
    }
}

pub open spec fn words_step(
    st: SuppressView,
    offset: int,
    token: LeafView,
    words: Seq<(int, int)>,
) -> SuppressView
    decreases words.len(),
{
    if words.len() == 0 {
        st
    } else {
        word_step(words_step(st, offset, token, words.drop_last()), offset, token, words.last())
    }
}

/// The effect of one top-level element. Comments inside blocks are not
/// scanned: a pragma is a whole-file switch.
pub open spec fn pragma_step(st: SuppressView, child: ChildView) -> SuppressView {
    match child.element {
        ElementView::Token(token) => match list_start(token.text) {
            Some(at) => if token.kind == SyntaxKind::COMMENT {
                words_step(st, child.offset, token, words_of(token.text.skip(at)))
            } else {
                st
            },
            None => st,
        },
        ElementView::Node(_) => st,
    }
}

pub open spec fn suppressions_of(children: Seq<ChildView>) -> SuppressView
    decreases children.len(),
{
    if children.len() == 0 {
        SuppressView { codes: Seq::empty(), hints: Seq::empty() }
    } else {
        pragma_step(suppressions_of(children.drop_last()), children.last())
    }
}

/// The diagnostics whose codes are not suppressed.
pub open spec fn kept(all: Seq<DiagnosticView>, codes: Seq<Seq<char>>) -> Seq<DiagnosticView>
    decreases all.len(),
{
    if all.len() == 0 {
        Seq::empty()
    } else if codes.contains(all.last().code) {
        kept(all.drop_last(), codes)
    } else {
        kept(all.drop_last(), codes).push(all.last())
    }
}

/// What the pragmas of a document say.
pub struct Suppressions {
    pub codes: Vec<String>,
    pub hints: Vec<Diagnostic>,
}

impl Suppressions {
    pub open spec fn view(&self) -> SuppressView {
        SuppressView { codes: string_views(self.codes@), hints: diagnostic_views(self.hints@) }
    }
}

proof fn lemma_word_range(s: Seq<char>, i: int, acc: Seq<(int, int)>, k: int)
    requires
        0 <= i <= s.len(),
        forall|j: int| 0 <= j < acc.len() ==> 0 <= (#[trigger] acc[j]).0 <= acc[j].1 <= s.len(),
        0 <= k < words_from(s, i, acc).len(),
    ensures
        0 <= words_from(s, i, acc)[k].0 <= words_from(s, i, acc)[k].1 <= s.len(),
    decreases s.len() - i,
{
    let start = skip(s, i, CharClass::Separator);
    lemma_skip(s, i, CharClass::Separator);
    if start < s.len() {
        let end = skip(s, start, CharClass::Word);
        lemma_skip(s, start, CharClass::Word);
        lemma_word_range(s, end, acc.push((start, end)), k);
    }
}

/// Each word lies inside the text.
pub proof fn lemma_words_inside(s: Seq<char>, k: int)
    requires
        0 <= k < words_of(s).len(),
    ensures
        0 <= words_of(s)[k].0 <= words_of(s)[k].1 <= s.len(),
{
    lemma_word_range(s, 0, Seq::empty(), k);
}

fn scan_pragma(token: &SyntaxToken, offset: u32, out: &mut Suppressions)
    ensures
        final(out).view() == pragma_step(
            old(out).view(),
            ChildView { offset: offset as int, element: ElementView::Token(token.view()) },
        ),
{
    let (list, rest) = match pragma_rest(token) {
        Some(found) => found,
        None => {
            return ;
        },
    };
    let words = pragma_words(rest);
    let ghost all = words_of(rest@);
    let ghost start = out.view();
    let mut i: usize = 0;
    assert(all.take(0) =~= Seq::<(int, int)>::empty());
    while i < words.len()
        invariant
            i <= words@.len(),
            all == words_of(rest@),
            range_views(words@) == byte_ranges(rest@, all),
            list_start(token.text@) is Some,
            list == byte_at(token.text@, list_start(token.text@)->0),
            rest@ == token.text@.skip(list_start(token.text@)->0),
            out.view() == words_step(start, offset as int, token.view(), all.take(i as int)),
        decreases words@.len() - i,
    {
        proof {
            assert(words@.len() == all.len()) by {
                assert(range_views(words@).len() == byte_ranges(rest@, all).len());
            }
            assert(all.take(i + 1).drop_last() =~= all.take(i as int));
            assert(range_views(words@)[i as int] == (
                words@[i as int].0 as int,
                words@[i as int].1 as int,
            ));
            assert(byte_ranges(rest@, all)[i as int] == (
                byte_at(rest@, all[i as int].0),
                byte_at(rest@, all[i as int].1),
            ));
            lemma_word_range(rest@, 0, Seq::empty(), i as int);
        }
        let (from, to) = words[i];
        let word = slice(rest, from, to, Ghost(all[i as int].0), Ghost(all[i as int].1));
        let ghost before = out.view();
        if is_known_code(word) {
            out.codes.push(word.to_owned());
            assert(string_views(out.codes@) =~= before.codes.push(word@));
        } else {
            let base = token.start.wrapping_add(list as u32);
            let hint = Diagnostic {
                span: rebase(
                    offset,
                    base.wrapping_add(from as u32),
                    base.wrapping_add(to as u32),
                ),
                severity: Severity::Hint,
                code: "unknown-suppression",
                message: cat3("`", word, "` is not a known diagnostic code"),
            };
            let ghost hint_view = hint.view();
            out.hints.push(hint);
            assert(diagnostic_views(out.hints@) =~= before.hints.push(hint_view));
        }
        i += 1;
    }
    proof {
        assert(range_views(words@).len() == byte_ranges(rest@, all).len());
        assert(all.take(i as int) =~= all);
    }
}

/// Collects what the file-scope pragmas of a document say.
pub(crate) fn suppressions_in(children: &Vec<Child>) -> (out: Suppressions)
    ensures
        out.view() == suppressions_of(child_views(children@)),
{
    let ghost all = child_views(children@);
    let mut out = Suppressions { codes: Vec::new(), hints: Vec::new() };
    let mut i: usize = 0;
    proof {
        assert(all.take(0) =~= Seq::<ChildView>::empty());
        assert(out.view() =~= suppressions_of(all.take(0)));
    }
    while i < children.len()
        invariant
            i <= children@.len(),
            all == child_views(children@),
            out.view() == suppressions_of(all.take(i as int)),
        decreases children@.len() - i,
    {
        proof {
            assert(all.take(i + 1).drop_last() =~= all.take(i as int));
            assert(all.take(i + 1).last() == children@[i as int].view());
        }
        let element: &SyntaxElement = &children[i].element;
        if let SyntaxElement::Token(token) = element {
            scan_pragma(token, children[i].offset, &mut out);
        }
        i += 1;
    }
    assert(all.take(i as int) =~= all);
    out
}

/// Adds a diagnostic unless its code is suppressed.
pub(crate) fn keep(
    out: &mut Vec<Diagnostic>,
    diagnostic: Diagnostic,
    codes: &Vec<String>,
    Ghost(all): Ghost<Seq<DiagnosticView>>,
)
    requires
        diagnostic_views(old(out)@) == kept(all, string_views(codes@)),
    ensures
        diagnostic_views(final(out)@) == kept(all.push(diagnostic.view()), string_views(codes@)),
{
    let ghost view = diagnostic.view();
    let ghost before = diagnostic_views(out@);
    assert(all.push(view).drop_last() =~= all);
    if !has_text(codes, diagnostic.code) {
        out.push(diagnostic);
        assert(diagnostic_views(out@) =~= before.push(view));
    }
}

/// Law: no diagnostic with a suppressed code is kept, and every other one is.
pub proof fn suppression_is_by_code(
    all: Seq<DiagnosticView>,
    codes: Seq<Seq<char>>,
    d: DiagnosticView,
)
    ensures
        kept(all, codes).contains(d) <==> all.contains(d) && !codes.contains(d.code),
    decreases all.len(),
{
    if all.len() > 0 {
        let rest = all.drop_last();
        suppression_is_by_code(rest, codes, d);
        let out = kept(all, codes);
        if kept(rest, codes).contains(d) {
            let k = choose|k: int| 0 <= k < kept(rest, codes).len() && kept(rest, codes)[k] == d;
            assert(out[k] == d);
        }
        if !codes.contains(all.last().code) {
            assert(out.last() == all.last());
            assert(out[out.len() - 1] == all.last());
        }
        if rest.contains(d) {
            let k = choose|k: int| 0 <= k < rest.len() && rest[k] == d;
            assert(all[k] == d);
        }
        if all.contains(d) && !rest.contains(d) {
            let k = choose|k: int| 0 <= k < all.len() && all[k] == d;
            if k < rest.len() {
                assert(rest[k] == d);
            }
        }
        assert(all[all.len() - 1] == all.last());
        if out.contains(d) {
            let k = choose|k: int| 0 <= k < out.len() && out[k] == d;
            if k < kept(rest, codes).len() {
                assert(kept(rest, codes)[k] == d);
            }
        }
    }
}

/// What is said, after what was said before.
pub open spec fn said_after(first: SuppressView, rest: SuppressView) -> SuppressView {
    SuppressView { codes: first.codes + rest.codes, hints: first.hints + rest.hints }
}

proof fn lemma_words_after(
    first: SuppressView,
    st: SuppressView,
    offset: int,
    token: LeafView,
    words: Seq<(int, int)>,
)
    ensures
        words_step(said_after(first, st), offset, token, words) == said_after(
            first,
            words_step(st, offset, token, words),
        ),
    decreases words.len(),
{
    if words.len() > 0 {
        lemma_words_after(first, st, offset, token, words.drop_last());
        let before = words_step(st, offset, token, words.drop_last());
        let after = word_step(before, offset, token, words.last());
        let joined = said_after(first, after);
        let step = word_step(said_after(first, before), offset, token, words.last());
        assert(step.codes =~= joined.codes);
        assert(step.hints =~= joined.hints);
    }
}

/// Law: pragmas accumulate. What the pragmas of a document say is what those of
/// its first elements say, followed by what those of the others say.
pub proof fn pragmas_accumulate(a: Seq<ChildView>, b: Seq<ChildView>)
    ensures
        suppressions_of(a + b) == said_after(suppressions_of(a), suppressions_of(b)),
    decreases b.len(),
{
    let first = suppressions_of(a);
    if b.len() == 0 {
        assert(a + b =~= a);
        assert(first.codes + Seq::<Seq<char>>::empty() =~= first.codes);
        assert(first.hints + Seq::<DiagnosticView>::empty() =~= first.hints);
    } else {
        assert((a + b).drop_last() =~= a + b.drop_last());
        pragmas_accumulate(a, b.drop_last());
        let rest = suppressions_of(b.drop_last());
        if let ElementView::Token(token) = b.last().element {
            if let Some(at) = list_start(token.text) {
                lemma_words_after(
                    first,
                    rest,
                    b.last().offset,
                    token,
                    words_of(token.text.skip(at)),
                );
            }
        }
    }
}

proof fn lemma_words_count(
    st: SuppressView,
    offset: int,
    token: LeafView,
    words: Seq<(int, int)>,
    k: int,
)
    requires
        0 <= k < words.len(),
    ensures
        ({
            let word = token.text.skip(list_start(token.text)->0).subrange(words[k].0, words[k].1);
            let out = words_step(st, offset, token, words);
            if known_code(word) {
                out.codes.contains(word)
            } else {
                exists|i: int|
                    0 <= i < out.hints.len() && (#[trigger] out.hints[i]).code
                        == "unknown-suppression"@ && out.hints[i].message == "`"@ + word
                        + "` is not a known diagnostic code"@
            }
        }),
    decreases words.len(),
{
    let word = token.text.skip(list_start(token.text)->0).subrange(words[k].0, words[k].1);
    let rest = words.drop_last();
    let before = words_step(st, offset, token, rest);
    let out = words_step(st, offset, token, words);
    if k < rest.len() {
        lemma_words_count(st, offset, token, rest, k);
        if known_code(word) {
            let i = choose|i: int| 0 <= i < before.codes.len() && before.codes[i] == word;
            assert(out.codes[i] == word);
        } else {
            let i = choose|i: int|
                0 <= i < before.hints.len() && (#[trigger] before.hints[i]).code
                    == "unknown-suppression"@ && before.hints[i].message == "`"@ + word
                    + "` is not a known diagnostic code"@;
            assert(out.hints[i] == before.hints[i]);
        }
    } else if known_code(word) {
        assert(out.codes[before.codes.len() as int] == word);
    } else {
        assert(out.hints[before.hints.len() as int].code == "unknown-suppression"@);
    }
}

/// Law: no word of a pragma is passed over. A word that is a diagnostic code is
/// suppressed in the whole document; for any other word there is a hint.
pub proof fn every_pragma_word_counts(children: Seq<ChildView>, at: int, k: int)
    requires
        0 <= at < children.len(),
        children[at].element is Token,
        (children[at].element->Token_0).kind == SyntaxKind::COMMENT,
        list_start((children[at].element->Token_0).text) is Some,
        0 <= k < words_of(pragma_list((children[at].element->Token_0).text)).len(),
    ensures
        ({
            let list = pragma_list((children[at].element->Token_0).text);
            let word = list.subrange(words_of(list)[k].0, words_of(list)[k].1);
            let said = suppressions_of(children);
            if known_code(word) {
                said.codes.contains(word)
            } else {
                exists|i: int|
                    0 <= i < said.hints.len() && (#[trigger] said.hints[i]).code
                        == "unknown-suppression"@ && said.hints[i].message == "`"@ + word
                        + "` is not a known diagnostic code"@
            }
        }),
{
    let token = children[at].element->Token_0;
    let list = pragma_list(token.text);
    let words = words_of(list);
    let word = list.subrange(words[k].0, words[k].1);
    let before = suppressions_of(children.take(at));
    lemma_words_count(before, children[at].offset, token, words, k);
    let upto = children.take(at + 1);
    assert(upto.drop_last() =~= children.take(at));
    let here = suppressions_of(upto);
    assert(here == words_step(before, children[at].offset, token, words));
    let rest = children.skip(at + 1);
    assert(upto + rest =~= children);
    pragmas_accumulate(upto, rest);
    let said = suppressions_of(children);
    if known_code(word) {
        let i = choose|i: int| 0 <= i < here.codes.len() && here.codes[i] == word;
        assert(said.codes[i] == word);
    } else {
        let i = choose|i: int|
            0 <= i < here.hints.len() && (#[trigger] here.hints[i]).code == "unknown-suppression"@
                && here.hints[i].message == "`"@ + word + "` is not a known diagnostic code"@;
        assert(said.hints[i] == here.hints[i]);
    }
}

/// The list of codes of a pragma comment.
pub open spec fn pragma_list(comment: Seq<char>) -> Seq<char> {
    comment.skip(list_start(comment)->0)
}

} // verus!
