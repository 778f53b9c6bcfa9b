//! Laws of reading a text: which characters make which tokens, and what the lines of a
//! document become, in terms of how they are written.

use vstd::prelude::*;
use vstd::string::*;

use crate::distance::{distance_zero_is_equality, levenshtein};
use crate::index::{part_at, symbol_hits, EntryView, HitView};
use crate::kind::SyntaxKind;
use crate::lexer::{
    kind_of, lemma_lex_from_shift, lemma_run_end, lex, run_end, token_end, TokenView,
};
use crate::parser::{
    line_blank, line_head, line_len, step, OpenerOracle, StateView, SyntaxErrorKind,
};
use crate::text::{lower, lower_char, upper_char};

verus! {

// ---------------------------------------------------------------------------
// Tokens
// ---------------------------------------------------------------------------
/// Law: blanks, line endings, `;`, `=` and `"` begin tokens of their own kinds; every
/// other character belongs to a word.
pub proof fn characters_have_kinds(c: char)
    ensures
        kind_of(c) == SyntaxKind::WHITESPACE <==> c == ' ' || c == '\t',
        kind_of(c) == SyntaxKind::NEWLINE <==> c == '\n' || c == '\r',
        kind_of(c) == SyntaxKind::COMMENT <==> c == ';',
        kind_of(c) == SyntaxKind::EQUALS <==> c == '=',
        kind_of(c) == SyntaxKind::STRING <==> c == '"',
        kind_of(c) == SyntaxKind::WORD <==> c != ' ' && c != '\t' && c != '\n' && c != '\r' && c
            != ';' && c != '=' && c != '"',
{
}

proof fn lemma_first(s: Seq<char>, n: int, kind: SyntaxKind)
    requires
        0 < n <= s.len(),
        token_end(s, 0) == n,
        kind_of(s[0]) == kind,
    ensures
        lex(s) == seq![TokenView { kind, text: s.take(n) }] + lex(s.skip(n)),
{
    assert(s =~= s.take(n) + s.skip(n));
    lemma_lex_from_shift(s.take(n), s.skip(n), 0);
    assert(s.subrange(0, n) =~= s.take(n));
}

/// A text is empty or begins with a line ending.
pub open spec fn ends_line(rest: Seq<char>) -> bool {
    rest.len() == 0 || rest[0] == '\n' || rest[0] == '\r'
}

/// Law: a comment begins at a `;` and runs to the end of its line.
pub proof fn comments_run_to_the_line_end(comment: Seq<char>, rest: Seq<char>)
    requires
        comment.len() > 0,
        comment[0] == ';',
        forall|i: int| 0 <= i < comment.len() ==> (#[trigger] comment[i]) != '\n' && comment[i]
            != '\r',
        ends_line(rest),
    ensures
        lex(comment + rest) == seq![TokenView { kind: SyntaxKind::COMMENT, text: comment }] + lex(
            rest,
        ),
{
    let s = comment + rest;
    let n = comment.len() as int;
    let end = run_end(s, SyntaxKind::COMMENT, 1);
    lemma_run_end(s, SyntaxKind::COMMENT, 1);
    assert(s[0] == comment[0]);
    if end < n {
        assert(s[end] == comment[end]);
    }
    if end > n {
        assert(s[n] == rest[0]);
    }
    lemma_first(s, n, SyntaxKind::COMMENT);
    assert(s.take(n) =~= comment);
    assert(s.skip(n) =~= rest);
}

/// Law: a string runs from a `"` to the next one on its line, or to the end of the
/// line if there is none.
pub proof fn strings_run_to_the_quote(inside: Seq<char>, rest: Seq<char>)
    requires
        forall|i: int|
            0 <= i < inside.len() ==> (#[trigger] inside[i]) != '"' && inside[i] != '\n'
                && inside[i] != '\r',
    ensures
        ({
            let text = seq!['"'] + inside + seq!['"'];
            lex(text + rest) == seq![TokenView { kind: SyntaxKind::STRING, text }] + lex(rest)
        }),
        ends_line(rest) ==> {
            let text = seq!['"'] + inside;
            lex(text + rest) == seq![TokenView { kind: SyntaxKind::STRING, text }] + lex(rest)
        },
{
    let closed = seq!['"'] + inside + seq!['"'];
    let s = closed + rest;
    let n = inside.len() + 1int;
    let end = run_end(s, SyntaxKind::STRING, 1);
    lemma_run_end(s, SyntaxKind::STRING, 1);
    assert(s[0] == '"');
    assert(s[n] == '"');
    if end < n {
        assert(s[end] == inside[end - 1]);
    }
    assert(end == n);
    lemma_first(s, n + 1, SyntaxKind::STRING);
    assert(s.take(n + 1) =~= closed);
    assert(s.skip(n + 1) =~= rest);
    if ends_line(rest) {
        let open = seq!['"'] + inside;
        let t = open + rest;
        let stop = run_end(t, SyntaxKind::STRING, 1);
        lemma_run_end(t, SyntaxKind::STRING, 1);
        assert(t[0] == '"');
        if stop < n {
            assert(t[stop] == inside[stop - 1]);
        }
        if stop > n {
            assert(t[n] == rest[0]);
        }
        assert(stop == n);
        if n < t.len() {
            assert(t[n] == rest[0]);
        }
        lemma_first(t, n, SyntaxKind::STRING);
        assert(t.take(n) =~= open);
        assert(t.skip(n) =~= rest);
    }
}

/// Law: an `=` is a token of its own.
pub proof fn equals_stand_alone(rest: Seq<char>)
    ensures
        lex(seq!['='] + rest) == seq![TokenView { kind: SyntaxKind::EQUALS, text: seq!['='] }]
            + lex(rest),
{
    let s = seq!['='] + rest;
    lemma_run_end(s, SyntaxKind::EQUALS, 1);
    assert(s[0] == '=');
    lemma_first(s, 1, SyntaxKind::EQUALS);
    assert(s.take(1) =~= seq!['=']);
    assert(s.skip(1) =~= rest);
}

/// Law: each line ending is one token, a `\r` with the `\n` behind it.
pub proof fn line_endings_are_tokens(rest: Seq<char>)
    ensures
        lex(seq!['\n'] + rest) == seq![
            TokenView { kind: SyntaxKind::NEWLINE, text: seq!['\n'] },
        ] + lex(rest),
        lex(seq!['\r', '\n'] + rest) == seq![
            TokenView { kind: SyntaxKind::NEWLINE, text: seq!['\r', '\n'] },
        ] + lex(rest),
        rest.len() == 0 || rest[0] != '\n' ==> lex(seq!['\r'] + rest) == seq![
            TokenView { kind: SyntaxKind::NEWLINE, text: seq!['\r'] },
        ] + lex(rest),
{
    let a = seq!['\n'] + rest;
    lemma_run_end(a, SyntaxKind::NEWLINE, 1);
    assert(a[0] == '\n');
    lemma_first(a, 1, SyntaxKind::NEWLINE);
    assert(a.take(1) =~= seq!['\n']);
    assert(a.skip(1) =~= rest);
    let b = seq!['\r', '\n'] + rest;
    assert(b[0] == '\r' && b[1] == '\n');
    lemma_first(b, 2, SyntaxKind::NEWLINE);
    assert(b.take(2) =~= seq!['\r', '\n']);
    assert(b.skip(2) =~= rest);
    if rest.len() == 0 || rest[0] != '\n' {
        let c = seq!['\r'] + rest;
        lemma_run_end(c, SyntaxKind::NEWLINE, 1);
        assert(c[0] == '\r');
        if rest.len() > 0 {
            assert(c[1] == rest[0]);
        }
        lemma_first(c, 1, SyntaxKind::NEWLINE);
        assert(c.take(1) =~= seq!['\r']);
        assert(c.skip(1) =~= rest);
    }
}

// ---------------------------------------------------------------------------
// Lines
// ---------------------------------------------------------------------------
/// The first word of a line is token `k`.
pub open spec fn heads(line: Seq<TokenView>, k: int) -> bool {
    &&& 0 <= k < line.len()
    &&& line[k].kind == SyntaxKind::WORD
    &&& forall|j: int| 0 <= j < k ==> (#[trigger] line[j]).kind != SyntaxKind::WORD
}

/// A line has nothing but blanks, a comment and its ending.
pub open spec fn is_empty_line(line: Seq<TokenView>) -> bool {
    forall|i: int|
        0 <= i < line.len() ==> (#[trigger] line[i]).kind == SyntaxKind::WHITESPACE || line[i].kind
            == SyntaxKind::COMMENT || line[i].kind == SyntaxKind::NEWLINE
}

proof fn lemma_head(line: Seq<TokenView>, k: int)
    requires
        heads(line, k),
    ensures
        line_head(line) == Some(line[k].text),
        !line_blank(line),
    decreases line.len(),
{
    let rest = line.drop_last();
    if k < rest.len() {
        assert(rest[k] == line[k]);
        assert forall|j: int| 0 <= j < k implies (#[trigger] rest[j]).kind != SyntaxKind::WORD by {
            assert(line[j].kind != SyntaxKind::WORD);
        }
        lemma_head(rest, k);
    } else {
        assert forall|j: int| 0 <= j < rest.len() implies (#[trigger] rest[j]).kind
            != SyntaxKind::WORD by {
            assert(line[j].kind != SyntaxKind::WORD);
        }
        lemma_no_head(rest);
    }
}

proof fn lemma_no_head(line: Seq<TokenView>)
    requires
        forall|j: int| 0 <= j < line.len() ==> (#[trigger] line[j]).kind != SyntaxKind::WORD,
    ensures
        line_head(line) is None,
    decreases line.len(),
{
    if line.len() > 0 {
        let rest = line.drop_last();
        assert forall|j: int| 0 <= j < rest.len() implies (#[trigger] rest[j]).kind
            != SyntaxKind::WORD by {
            assert(line[j].kind != SyntaxKind::WORD);
        }
        lemma_no_head(rest);
        assert(line[line.len() - 1].kind != SyntaxKind::WORD);
    }
}

/// Law: an empty line opens and closes nothing, and is no error.
pub proof fn empty_lines_change_no_scope<O: OpenerOracle>(
    oracle: O,
    st: StateView,
    line: Seq<TokenView>,
)
    requires
        is_empty_line(line),
    ensures
        ({
            let after = step(oracle, st, line);
            &&& after.errors == st.errors
            &&& after.stack.len() == st.stack.len()
            &&& after.pos == st.pos + line_len(line)
            &&& forall|i: int|
                st.done.len() <= i < after.done.len() ==> (#[trigger] after.done[i]).element
                    is Token
            &&& st.stack.len() == 0 ==> after.done.len() == st.done.len() + line.len()
        }),
{
    assert(line_blank(line));
}

/// Law: an `End`, in any case, closes the innermost scope: its node goes to the scope
/// around it, or to the document. Without a scope it is an error, over its line.
pub proof fn ends_close_the_innermost_scope<O: OpenerOracle>(
    oracle: O,
    st: StateView,
    line: Seq<TokenView>,
    k: int,
)
    requires
        heads(line, k),
        lower(line[k].text) == lower("End"@),
    ensures
        ({
            let after = step(oracle, st, line);
            let n = st.stack.len();
            &&& if n == 0 {
                &&& after.stack.len() == 0
                &&& after.errors.len() == st.errors.len() + 1
                &&& after.errors.last().kind == SyntaxErrorKind::StrayEnd
                &&& after.errors.last().start == st.pos
                &&& after.errors.last().end == st.pos + line_len(line)
            } else {
                &&& after.stack.len() == n - 1
                &&& after.errors == st.errors
                &&& n == 1 ==> after.done.len() == st.done.len() + 1 && after.done.last().element
                    is Node && after.done.last().element->Node_0.kind == st.stack[0].kind
                    && after.done.last().offset == st.stack[0].start
                &&& n > 1 ==> after.done == st.done && after.stack.last().children.len()
                    == st.stack[n - 2].children.len() + 1 && after.stack.last().children.last()
                    is Node && after.stack.last().children.last()->Node_0.kind
                    == st.stack.last().kind && after.stack.last().head == st.stack[n - 2].head
            }
        }),
{
    lemma_head(line, k);
    let after = step(oracle, st, line);
    let n = st.stack.len();
    if n > 1 {
        assert(after.stack.last().children.last() is Node);
    }
}

/// Law: outside of all scopes, a line whose first word may begin a block opens one,
/// under that word; another line is a field of its own.
pub proof fn lines_outside_open_blocks<O: OpenerOracle>(
    oracle: O,
    st: StateView,
    line: Seq<TokenView>,
    k: int,
)
    requires
        heads(line, k),
        lower(line[k].text) != lower("End"@),
        st.stack.len() == 0,
    ensures
        ({
            let after = step(oracle, st, line);
            &&& after.errors == st.errors
            &&& if oracle.opens_file(line[k].text) {
                &&& after.done == st.done
                &&& after.stack.len() == 1
                &&& after.stack[0].kind == SyntaxKind::BLOCK
                &&& after.stack[0].head == line[k].text
                &&& after.stack[0].start == st.pos
            } else {
                &&& after.stack.len() == 0
                &&& after.done.len() == st.done.len() + 1
                &&& after.done.last().offset == st.pos
                &&& after.done.last().element is Node
                &&& after.done.last().element->Node_0.kind == SyntaxKind::FIELD
            }
        }),
{
    lemma_head(line, k);
}

/// Law: inside a scope, a line opens a module, under its first word, where the schema
/// says so for the word of the scope; every other line is a field of the scope.
pub proof fn lines_inside_are_fields_or_modules<O: OpenerOracle>(
    oracle: O,
    st: StateView,
    line: Seq<TokenView>,
    k: int,
)
    requires
        heads(line, k),
        lower(line[k].text) != lower("End"@),
        st.stack.len() > 0,
    ensures
        ({
            let after = step(oracle, st, line);
            let n = st.stack.len();
            let has_equals = exists|i: int|
                0 <= i < line.len() && (#[trigger] line[i]).kind == SyntaxKind::EQUALS;
            &&& after.errors == st.errors
            &&& after.done == st.done
            &&& if oracle.opens(Some(st.stack.last().head), line[k].text, has_equals) {
                &&& after.stack.len() == n + 1
                &&& after.stack.drop_last() == st.stack
                &&& after.stack.last().kind == SyntaxKind::MODULE
                &&& after.stack.last().head == line[k].text
                &&& after.stack.last().start == st.pos
            } else {
                &&& after.stack.len() == n
                &&& after.stack.last().head == st.stack.last().head
                &&& after.stack.last().children.len() == st.stack.last().children.len() + 1
                &&& after.stack.last().children.drop_last() == st.stack.last().children
                &&& after.stack.last().children.last() is Node
                &&& after.stack.last().children.last()->Node_0.kind == SyntaxKind::FIELD
            }
        }),
{
    lemma_head(line, k);
    let after = step(oracle, st, line);
    let has_equals = exists|i: int|
        0 <= i < line.len() && (#[trigger] line[i]).kind == SyntaxKind::EQUALS;
    if oracle.opens(Some(st.stack.last().head), line[k].text, has_equals) {
        assert(after.stack.drop_last() =~= st.stack);
    } else {
        assert(after.stack.last().children.drop_last() =~= st.stack.last().children);
    }
}

// ---------------------------------------------------------------------------
// Letters
// ---------------------------------------------------------------------------
/// Law: case is that of the letters from A to Z; every other character has none.
pub proof fn letters_have_two_cases(c: char)
    ensures
        'A' <= c <= 'Z' ==> lower_char(c) as int == c as int - 'A' as int + 'a' as int,
        'a' <= c <= 'z' ==> upper_char(c) as int == c as int - 'a' as int + 'A' as int,
        !('A' <= c <= 'Z') ==> lower_char(c) == c,
        !('a' <= c <= 'z') ==> upper_char(c) == c,
        lower_char(upper_char(c)) == lower_char(c),
        upper_char(lower_char(c)) == upper_char(c),
{
}

// ---------------------------------------------------------------------------
// Distance of words
// ---------------------------------------------------------------------------
proof fn lemma_common_end(a: Seq<char>, b: Seq<char>, end: Seq<char>)
    ensures
        levenshtein(a + end, b + end) <= levenshtein(a, b),
    decreases end.len(),
{
    if end.len() == 0 {
        assert(a + end =~= a);
        assert(b + end =~= b);
    } else {
        let rest = end.drop_last();
        lemma_common_end(a, b, rest);
        assert((a + end).drop_last() =~= a + rest);
        assert((b + end).drop_last() =~= b + rest);
        assert((a + end).last() == end.last());
        assert((b + end).last() == end.last());
    }
}

/// Law: a letter more, or another letter in one place, is a distance of one.
pub proof fn one_edit_is_one_apart(front: Seq<char>, c: char, d: char, end: Seq<char>)
    ensures
        levenshtein(front + end, front + seq![c] + end) == 1,
        c != d ==> levenshtein(front + seq![c] + end, front + seq![d] + end) == 1,
{
    let one = front + seq![c];
    let other = front + seq![d];
    assert(one.drop_last() =~= front);
    assert(other.drop_last() =~= front);
    assert(one.last() == c && other.last() == d);
    distance_zero_is_equality(front, front);
    lemma_common_end(front, one, end);
    lemma_common_end(one, other, end);
    distance_zero_is_equality(front + end, one + end);
    distance_zero_is_equality(one + end, other + end);
    assert((front + end).len() != (one + end).len());
    if c != d {
        assert((one + end)[front.len() as int] == c);
        assert((other + end)[front.len() as int] == d);
    }
}

/// Law: words that have no letter in common are as far apart as the longer is long.
pub proof fn unlike_words_are_far_apart(a: Seq<char>, b: Seq<char>)
    requires
        forall|i: int, j: int| #![trigger a[i], b[j]]
            0 <= i < a.len() && 0 <= j < b.len() ==> a[i] != b[j],
    ensures
        levenshtein(a, b) == if a.len() < b.len() {
            b.len()
        } else {
            a.len()
        },
    decreases a.len() + b.len(),
{
    if a.len() > 0 && b.len() > 0 {
        let (x, y) = (a.drop_last(), b.drop_last());
        assert(a[a.len() - 1] != b[b.len() - 1]);
        assert forall|i: int, j: int| #![trigger x[i], b[j]]
            0 <= i < x.len() && 0 <= j < b.len() implies x[i] != b[j] by {
            assert(a[i] != b[j]);
        }
        assert forall|i: int, j: int| #![trigger a[i], y[j]]
            0 <= i < a.len() && 0 <= j < y.len() implies a[i] != y[j] by {
            assert(a[i] != b[j]);
        }
        assert forall|i: int, j: int| #![trigger x[i], y[j]]
            0 <= i < x.len() && 0 <= j < y.len() implies x[i] != y[j] by {
            assert(a[i] != b[j]);
        }
        unlike_words_are_far_apart(x, y);
        unlike_words_are_far_apart(x, b);
        unlike_words_are_far_apart(a, y);
    }
}

// ---------------------------------------------------------------------------
// Symbols of a workspace
// ---------------------------------------------------------------------------
/// A place where a name is defined that holds a part.
pub open spec fn is_hit(entries: Seq<EntryView>, part: Seq<char>, hit: HitView) -> bool {
    exists|e: int, i: int, l: int|
        #![trigger part_at(entries[e].name, part, i), entries[e].locations[l]]
        0 <= e < entries.len() && part_at(entries[e].name, part, i) && 0 <= l
            < entries[e].locations.len() && hit.kind == entries[e].kind && hit.name
            == entries[e].display && hit.location == entries[e].locations[l]
}

/// Law: the symbols of a workspace that a query finds are all places of the names that
/// hold it, and no others.
pub proof fn queries_find_names_that_hold_them(
    entries: Seq<EntryView>,
    part: Seq<char>,
    hit: HitView,
)
    ensures
        symbol_hits(entries, part).contains(hit) <==> is_hit(entries, part, hit),
    decreases entries.len(),
{
    if entries.len() > 0 {
        let rest = entries.drop_last();
        let n = entries.len() - 1;
        let (before, all) = (symbol_hits(rest, part), symbol_hits(entries, part));
        queries_find_names_that_hold_them(rest, part, hit);
        if before.contains(hit) {
            let h = choose|h: int| 0 <= h < before.len() && before[h] == hit;
            assert(all[h] == hit);
            let (e, i, l) = choose|e: int, i: int, l: int|
                #![trigger part_at(rest[e].name, part, i), rest[e].locations[l]]
                0 <= e < rest.len() && part_at(rest[e].name, part, i) && 0 <= l
                    < rest[e].locations.len() && hit.kind == rest[e].kind && hit.name
                    == rest[e].display && hit.location == rest[e].locations[l];
            assert(part_at(entries[e].name, part, i) && entries[e].locations[l] == hit.location);
        } else {
            if all.contains(hit) {
                let h = choose|h: int| 0 <= h < all.len() && all[h] == hit;
                if h < before.len() {
                    assert(before[h] == hit);
                }
                let l = h - before.len();
                let i = choose|i: int| part_at(entries[n].name, part, i);
                assert(part_at(entries[n].name, part, i) && entries[n].locations[l]
                    == hit.location);
            }
            if is_hit(entries, part, hit) {
                let (e, i, l) = choose|e: int, i: int, l: int|
                    #![trigger part_at(entries[e].name, part, i), entries[e].locations[l]]
                    0 <= e < entries.len() && part_at(entries[e].name, part, i) && 0 <= l
                        < entries[e].locations.len() && hit.kind == entries[e].kind && hit.name
                        == entries[e].display && hit.location == entries[e].locations[l];
                if e < n {
                    assert(part_at(rest[e].name, part, i) && rest[e].locations[l]
                        == hit.location);
                    assert(is_hit(rest, part, hit));
                }
                assert(all[before.len() + l] == hit);
            }
        }
    }
}

} // verus!
