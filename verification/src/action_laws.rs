//! What holds of the fixes: a generated module tag is never in use, a suppression
//! that is inserted takes effect, an `End` that is inserted closes a scope, and a
//! stub that is created defines its name.

use vstd::prelude::*;
use vstd::string::*;

use crate::actions::{blanks_at, free_number, free_tag, line_lead, tag_name};
use crate::ast::{header, words};
use crate::facts::lists_name;
use crate::format::{is_blank, lemma_indent_end};
use crate::incremental::{
    closed, joined, lemma_last_token_newline, parse_is_compositional, shift_children, whole_lines,
};
use crate::index::{definition_of, definitions_of, DefinitionView};
use crate::kind::SyntaxKind;
use crate::lexer::{
    bare_word, continues, eol_char, kind_of, lex, lex_after_blanks, lex_after_word,
    lex_before_ending, lex_from, lex_is_line_local, run_end, token_end, TokenView,
};
use crate::numbers::decimal;
use crate::parser::{
    close_all, initial_state, leaves, line_blank, line_end, line_head, line_is_end, loose_tokens,
    parse_text, run, step, ChildView, OpenerOracle,
};
use crate::pragma::{
    keyword_end, known_code, list_start, pragma_step, pragmas_accumulate, separates, skip,
    stands_at, suppressions_of, words_from, words_of, words_step, CharClass, SuppressView,
};
use crate::schema::{block_named, RefKind, Schema};
use crate::scopes::{
    heads_from, heads_of, lemma_join, lemma_newline_last, lemma_run_heads,
    open_scopes_are_reported, text_heads, unterminated,
};
use crate::settled::{all_blank, lemma_text_after_blanks};
use crate::text::{lower, lower_char, same_ignoring_case};
use crate::tree::{ElementView, LeafView};

verus! {

// ---------------------------------------------------------------------------
// Generated tags
// ---------------------------------------------------------------------------
proof fn lemma_digit(d: nat)
    requires
        d < 10,
    ensures
        '0' <= (d + '0' as nat) as char <= '9',
        ((d + '0' as nat) as char) as nat == d + '0' as nat,
        lower_char((d + '0' as nat) as char) == (d + '0' as nat) as char,
{
}

proof fn lemma_decimal(n: nat)
    ensures
        decimal(n).len() > 0,
        lower(decimal(n)) == decimal(n),
        n > 0 ==> decimal(n)[0] != '0',
        n >= 10 ==> decimal(n).len() >= 2,
    decreases n,
{
    if n < 10 {
        lemma_digit(n);
        assert(lower(decimal(n)) =~= decimal(n));
    } else {
        lemma_decimal(n / 10);
        lemma_digit(n % 10);
        let head = decimal(n / 10);
        assert forall|i: int| 0 <= i < decimal(n).len() implies lower(decimal(n))[i] == decimal(
            n,
        )[i] by {
            if i < head.len() {
                assert(lower(head)[i] == head[i]);
            }
        }
        assert(lower(decimal(n)) =~= decimal(n));
    }
}

proof fn lemma_decimal_injective(a: nat, b: nat)
    requires
        decimal(a) == decimal(b),
    ensures
        a == b,
    decreases a,
{
    lemma_decimal(a);
    lemma_decimal(b);
    if a < 10 && b < 10 {
        lemma_digit(a);
        lemma_digit(b);
        assert(decimal(a)[0] == decimal(b)[0]);
    } else if a >= 10 && b >= 10 {
        let x = decimal(a);
        let y = decimal(b);
        lemma_digit(a % 10);
        lemma_digit(b % 10);
        assert(x.last() == y.last());
        assert(x.drop_last() =~= decimal(a / 10));
        assert(y.drop_last() =~= decimal(b / 10));
        lemma_decimal_injective(a / 10, b / 10);
    }
}

proof fn lemma_tag_name(n: nat)
    ensures
        tag_name(n).len() == (if n < 10 {
            11nat
        } else {
            10nat
        }) + decimal(n).len(),
        lower(tag_name(n)).skip(if n < 10 {
            11
        } else {
            10
        }) == decimal(n),
        n < 10 ==> lower(tag_name(n))[10] == '0',
{
    reveal_strlit("ModuleTag_0");
    reveal_strlit("ModuleTag_");
    lemma_decimal(n);
    let k: int = if n < 10 {
        11
    } else {
        10
    };
    let name = tag_name(n);
    assert forall|i: int| 0 <= i < decimal(n).len() implies lower(name).skip(k)[i] == decimal(
        n,
    )[i] by {
        assert(name[k + i] == decimal(n)[i]);
        assert(lower(decimal(n))[i] == decimal(n)[i]);
    }
    assert(lower(name).skip(k) =~= decimal(n));
    if n < 10 {
        assert(name[10] == '0');
    }
}

proof fn lemma_tags_differ(a: nat, b: nat)
    requires
        a > 0,
        b > 0,
        lower(tag_name(a)) == lower(tag_name(b)),
    ensures
        a == b,
{
    lemma_tag_name(a);
    lemma_tag_name(b);
    lemma_decimal(a);
    lemma_decimal(b);
    assert(tag_name(a).len() == lower(tag_name(a)).len());
    assert(tag_name(b).len() == lower(tag_name(b)).len());
    if a < 10 && b >= 10 {
        assert(lower(tag_name(b)).skip(10)[0] == decimal(b)[0]);
    } else if b < 10 && a >= 10 {
        assert(lower(tag_name(a)).skip(10)[0] == decimal(a)[0]);
    } else {
        lemma_decimal_injective(a, b);
    }
}

proof fn lemma_free_number(used: Seq<Seq<char>>, n: nat, more: nat)
    ensures
        n <= free_number(used, n, more) <= n + more,
        forall|k: nat|
            n <= k < free_number(used, n, more) ==> lists_name(used, #[trigger] tag_name(k)),
        free_number(used, n, more) < n + more ==> !lists_name(
            used,
            tag_name(free_number(used, n, more)),
        ),
    decreases more,
{
    if more > 0 && lists_name(used, tag_name(n)) {
        lemma_free_number(used, n + 1, (more - 1) as nat);
    }
}

/// Law: a generated module tag equals none of the tags in use, in any case.
pub proof fn generated_tag_is_unused(used: Seq<Seq<char>>)
    ensures
        !lists_name(used, free_tag(used)),
{
    let l = used.len();
    let m = free_number(used, 1, l);
    lemma_free_number(used, 1, l);
    if lists_name(used, tag_name(m)) {
        // Then the tags 1 to l + 1 are all in use, but only l can be.
        assert(m == l + 1);
        let tags = Seq::new(l + 1, |k: int| lower(tag_name((k + 1) as nat)));
        let names = Seq::new(l, |i: int| lower(used[i]));
        assert forall|i: int, j: int| 0 <= i < tags.len() && 0 <= j < tags.len() && i
            != j implies tags[i] != tags[j] by {
            if tags[i] == tags[j] {
                lemma_tags_differ((i + 1) as nat, (j + 1) as nat);
            }
        }
        assert(tags.no_duplicates());
        tags.unique_seq_to_set();
        names.lemma_cardinality_of_set();
        assert forall|t: Seq<char>| tags.to_set().contains(t) implies names.to_set().contains(
            t,
        ) by {
            let k = choose|k: int| 0 <= k < tags.len() && tags[k] == t;
            let tag = tag_name((k + 1) as nat);
            assert(lists_name(used, tag));
            let i = choose|i: int|
                0 <= i < used.len() && same_ignoring_case(#[trigger] used[i], tag);
            assert(names[i] == t);
        }
        vstd::seq_lib::seq_to_set_is_finite(names);
        vstd::set_lib::lemma_len_subset(tags.to_set(), names.to_set());
    }
}

// ---------------------------------------------------------------------------
// Suppressions
// ---------------------------------------------------------------------------
/// The line that suppresses a code.
pub open spec fn pragma_line(code: Seq<char>) -> Seq<char> {
    "; zerosyntax-disable: "@ + code + "\n"@
}

/// A word without separators, whitespace or line breaks.
spec fn plain(code: Seq<char>) -> bool {
    &&& code.len() > 0
    &&& forall|i: int| 0 <= i < code.len() ==> plain_char(#[trigger] code[i])
}

spec fn plain_char(c: char) -> bool {
    ('a' <= c && c <= 'z') || c == '-'
}

proof fn lemma_known_codes_are_plain(code: Seq<char>)
    requires
        known_code(code),
    ensures
        plain(code),
{
    reveal_strlit("syntax");
    reveal_strlit("stray-field");
    reveal_strlit("unknown-block");
    reveal_strlit("overrides");
    reveal_strlit("duplicate-definition");
    reveal_strlit("unreachable-set");
    reveal_strlit("unknown-field");
    reveal_strlit("missing-module-tag");
    reveal_strlit("unknown-module");
    reveal_strlit("missing-condition");
    reveal_strlit("missing-value");
    reveal_strlit("bad-bool");
    reveal_strlit("non-positive");
    reveal_strlit("bad-percent");
    reveal_strlit("bad-color");
    reveal_strlit("bad-coord");
    reveal_strlit("bad-number");
    reveal_strlit("bad-enum");
    reveal_strlit("bad-flag");
    reveal_strlit("unresolved-reference");
    reveal_strlit("unknown-suppression");
    reveal_strlit("module-wrong-slot");
    reveal_strlit("duplicate-module-tag");
    reveal_strlit("editor-default-module");
    reveal_strlit("map-forward-reference");
    reveal_strlit("map-projectile-object");
    reveal_strlit("bad-prefixed");
    reveal_strlit("unknown-model");
    reveal_strlit("unknown-model-member");
}

/// The comment of a pragma line.
spec fn pragma_comment(code: Seq<char>) -> Seq<char> {
    "; zerosyntax-disable: "@ + code
}

proof fn lemma_comment_run(s: Seq<char>, i: int, end: int)
    requires
        0 <= i <= end <= s.len(),
        forall|k: int| i <= k < end ==> !eol_char(#[trigger] s[k]),
        end < s.len() ==> eol_char(s[end]),
    ensures
        run_end(s, SyntaxKind::COMMENT, i) == end,
    decreases end - i,
{
    if i < end {
        assert(!eol_char(s[i]));
        lemma_comment_run(s, i + 1, end);
    }
}

proof fn lemma_pragma_tokens(code: Seq<char>)
    requires
        plain(code),
    ensures
        lex(pragma_line(code)) == seq![
            TokenView { kind: SyntaxKind::COMMENT, text: pragma_comment(code) },
            TokenView { kind: SyntaxKind::NEWLINE, text: "\n"@ },
        ],
{
    reveal_strlit("; zerosyntax-disable: ");
    reveal_strlit("\n");
    let s = pragma_line(code);
    let n = pragma_comment(code).len() as int;
    assert(s =~= pragma_comment(code) + "\n"@);
    assert forall|k: int| 1 <= k < n implies !eol_char(#[trigger] s[k]) by {
        if k >= 22 {
            assert(s[k] == code[k - 22]);
            assert(plain_char(code[k - 22]));
        }
    }
    assert(s[n] == '\n');
    lemma_comment_run(s, 1, n);
    assert(token_end(s, 0) == n);
    assert(token_end(s, n) == n + 1) by {
        assert(!continues(SyntaxKind::NEWLINE, '\n'));
    }
    reveal_with_fuel(lex_from, 3);
    assert(s.subrange(0, n) =~= pragma_comment(code));
    assert(s.subrange(n, n + 1) =~= "\n"@);
    assert(lex_from(s, n + 1) =~= Seq::<TokenView>::empty());
    assert(lex(s) =~= seq![
        TokenView { kind: SyntaxKind::COMMENT, text: pragma_comment(code) },
        TokenView { kind: SyntaxKind::NEWLINE, text: "\n"@ },
    ]);
}

proof fn lemma_pragma_parse<O: OpenerOracle>(oracle: O, code: Seq<char>)
    requires
        plain(code),
    ensures
        closed(oracle, pragma_line(code)),
        whole_lines(pragma_line(code)),
        ({
            let children = parse_text(oracle, pragma_line(code)).children;
            &&& children.len() == 2
            &&& children[0].element is Token
            &&& (children[0].element->Token_0).kind == SyntaxKind::COMMENT
            &&& (children[0].element->Token_0).text == pragma_comment(code)
        }),
{
    reveal(parse_text);
    reveal_strlit("\n");
    lemma_pragma_tokens(code);
    let s = pragma_line(code);
    assert(s.last() == '\n');
    let tokens = lex(s);
    reveal_with_fuel(line_end, 3);
    assert(line_end(tokens, 0) == 2);
    let line = tokens.subrange(0, 2);
    assert(line =~= tokens);
    assert(line_blank(line));
    reveal_with_fuel(run, 3);
    let st = run(oracle, tokens, 0, initial_state());
    assert(st == step(oracle, initial_state(), line));
    assert(st.done =~= loose_tokens(line, 0));
    assert(close_all(st) == st);
}

proof fn lemma_list_start(code: Seq<char>)
    requires
        plain(code),
    ensures
        list_start(pragma_comment(code)) == Some(21int),
        pragma_comment(code).skip(21) == seq![' '] + code,
{
    reveal_strlit("; zerosyntax-disable: ");
    reveal_strlit("zerosyntax-disable");
    let s = pragma_comment(code);
    assert(s[0] == ';');
    assert(s[1] == ' ');
    assert(s[2] == 'z');
    assert(s[20] == ':');
    reveal_with_fuel(skip, 3);
    assert(skip(s, 0, CharClass::Semicolon) == 1);
    assert(skip(s, 1, CharClass::Space) == 2);
    assert(s.subrange(2, 20) =~= "zerosyntax-disable"@);
    assert(stands_at(s, 2, "zerosyntax-disable"@));
    assert(keyword_end(s, 2) == Some(20int));
    assert(skip(s, 20, CharClass::Space) == 20);
    assert(s.skip(21) =~= seq![' '] + code);
}

proof fn lemma_word_run(s: Seq<char>, i: int)
    requires
        0 <= i <= s.len(),
        forall|k: int| i <= k < s.len() ==> !separates(#[trigger] s[k]),
    ensures
        skip(s, i, CharClass::Word) == s.len(),
    decreases s.len() - i,
{
    if i < s.len() {
        assert(!separates(s[i]));
        lemma_word_run(s, i + 1);
    }
}

proof fn lemma_list_words(code: Seq<char>)
    requires
        plain(code),
    ensures
        words_of(seq![' '] + code) == seq![(1int, (code.len() + 1) as int)],
        (seq![' '] + code).subrange(1, (code.len() + 1) as int) == code,
{
    let s = seq![' '] + code;
    assert forall|k: int| 1 <= k < s.len() implies !separates(#[trigger] s[k]) by {
        assert(s[k] == code[k - 1]);
        assert(plain_char(code[k - 1]));
    }
    assert(s[0] == ' ');
    assert(s[1] == code[0]);
    reveal_with_fuel(skip, 3);
    assert(skip(s, 0, CharClass::Separator) == 1);
    lemma_word_run(s, 1);
    let end = s.len() as int;
    reveal_with_fuel(words_from, 3);
    assert(skip(s, end, CharClass::Separator) == end);
    assert(words_of(s) =~= seq![(1int, end)]);
    assert(s.subrange(1, end) =~= code);
}

/// Law: a pragma line at the top of a file suppresses the code that it names,
/// whatever follows it.
pub proof fn inserted_pragma_suppresses<O: OpenerOracle>(
    oracle: O,
    code: Seq<char>,
    text: Seq<char>,
)
    requires
        known_code(code),
    ensures
        suppressions_of(parse_text(oracle, pragma_line(code) + text).children).codes.contains(
            code,
        ),
{
    lemma_known_codes_are_plain(code);
    let line = pragma_line(code);
    lemma_pragma_parse(oracle, code);
    parse_is_compositional(oracle, line, text);
    let first = parse_text(oracle, line);
    let rest = parse_text(oracle, text);
    let comment = first.children.take(1);
    let token = first.children[0].element->Token_0;
    lemma_list_start(code);
    lemma_list_words(code);
    let list = seq![' '] + code;
    let empty = SuppressView { codes: Seq::empty(), hints: Seq::empty() };
    assert(comment.drop_last() =~= Seq::<ChildView>::empty());
    assert(comment.last() == first.children[0]);
    assert(suppressions_of(comment) == pragma_step(empty, first.children[0])) by {
        reveal_with_fuel(suppressions_of, 2);
    }
    let words = words_of(list);
    assert(words.drop_last() =~= Seq::<(int, int)>::empty());
    assert(words.last() == (1int, (code.len() + 1) as int));
    reveal_with_fuel(words_step, 2);
    assert(suppressions_of(comment).codes =~= seq![code]);
    assert(suppressions_of(comment).codes[0] == code);
    let more = first.children.skip(1) + shift_children(rest.children, first.len);
    assert(joined(first, rest).children =~= comment + more);
    pragmas_accumulate(comment, more);
    assert(suppressions_of(comment + more).codes[0] == code);
}

// ---------------------------------------------------------------------------
// Missing `End`
// ---------------------------------------------------------------------------
/// Completing the last line of a text changes no scope.
proof fn lemma_completed<O: OpenerOracle>(oracle: O, heads: Seq<Seq<char>>, s: Seq<char>)
    ensures
        text_heads(oracle, heads, s + line_lead(s)) == text_heads(oracle, heads, s),
        whole_lines(s + line_lead(s)),
{
    reveal_strlit("");
    reveal_strlit("\n");
    if s.len() == 0 || s.last() == '\n' {
        assert(s + line_lead(s) =~= s);
    } else if s.last() == '\r' {
        let body = s.drop_last();
        assert(s =~= body + seq!['\r']);
        assert(s + line_lead(s) =~= body + seq!['\r', '\n']);
        lex_before_ending(body, seq!['\r']);
        lex_before_ending(body, seq!['\r', '\n']);
        let (one, two) = (
            TokenView { kind: SyntaxKind::NEWLINE, text: seq!['\r'] },
            TokenView { kind: SyntaxKind::NEWLINE, text: seq!['\r', '\n'] },
        );
        lemma_newline_last(oracle, lex(body), one, 0, heads);
        lemma_newline_last(oracle, lex(body), two, 0, heads);
    } else {
        assert("\n"@ =~= seq!['\n']);
        lex_before_ending(s, seq!['\n']);
        let newline = TokenView { kind: SyntaxKind::NEWLINE, text: seq!['\n'] };
        lemma_newline_last(oracle, lex(s), newline, 0, heads);
    }
}

/// The tokens of an `End` line.
proof fn lemma_end_tokens()
    ensures
        lex("End\n"@) == seq![
            TokenView { kind: SyntaxKind::WORD, text: "End"@ },
            TokenView { kind: SyntaxKind::NEWLINE, text: seq!['\n'] },
        ],
{
    reveal_strlit("End\n");
    reveal_strlit("End");
    let word = "End"@;
    assert("End\n"@ =~= word + seq!['\n']);
    lex_before_ending(word, seq!['\n']);
    reveal_with_fuel(run_end, 4);
    reveal_with_fuel(lex_from, 2);
    assert(token_end(word, 0) == 3);
    assert(word.subrange(0, 3) =~= word);
    assert(lex(word) =~= seq![TokenView { kind: SyntaxKind::WORD, text: word }]);
}

/// An `End` line closes the innermost scope.
proof fn lemma_end_closes<O: OpenerOracle>(oracle: O, heads: Seq<Seq<char>>, blanks: Seq<char>)
    requires
        heads.len() > 0,
        all_blank(blanks),
    ensures
        text_heads(oracle, heads, blanks + "End\n"@) == heads.drop_last(),
{
    let end = "End\n"@;
    lemma_end_tokens();
    reveal_strlit("End\n");
    lemma_text_after_blanks(oracle, heads, blanks, end);
    let line = lex(end);
    reveal_with_fuel(line_end, 3);
    assert(line_end(line, 0) == 2);
    assert(line.subrange(0, 2) =~= line);
    assert(line[0].kind == SyntaxKind::WORD);
    assert(!line_blank(line));
    reveal_with_fuel(line_head, 3);
    assert(line.drop_last().drop_last() =~= Seq::<TokenView>::empty());
    assert(line_head(line) == Some("End"@));
    assert(line_is_end(line));
    reveal_with_fuel(heads_from, 2);
}

/// Law: inserting a missing `End` at the end of a text, as the fix does with the
/// indentation of any of its lines, closes one scope: one less is reported as
/// unterminated.
pub proof fn inserted_end_closes_a_scope<O: OpenerOracle>(oracle: O, s: Seq<char>, at: int)
    requires
        unterminated(parse_text(oracle, s).errors) > 0,
        0 <= at <= s.len(),
    ensures
        unterminated(
            parse_text(
                oracle,
                s + (line_lead(s) + blanks_at(s, at) + "End\n"@),
            ).errors,
        ) + 1 == unterminated(parse_text(oracle, s).errors),
{
    let none = Seq::<Seq<char>>::empty();
    let blanks = blanks_at(s, at);
    let (front, line) = (s + line_lead(s), blanks + "End\n"@);
    let all = s + (line_lead(s) + blanks + "End\n"@);
    lemma_indent_end(s, at, s.len() as int);
    assert forall|k: int| 0 <= k < blanks.len() implies is_blank(#[trigger] blanks[k]) by {
        assert(blanks[k] == s[at + k]);
    }
    open_scopes_are_reported(oracle, s);
    open_scopes_are_reported(oracle, all);
    lemma_completed(oracle, none, s);
    let heads = text_heads(oracle, none, front);
    lemma_end_closes(oracle, heads, blanks);
    assert(all =~= front + line);
    lex_is_line_local(front, line);
    if front.len() > 0 {
        lemma_last_token_newline(front);
    } else {
        assert(lex(front) =~= Seq::<TokenView>::empty());
    }
    lemma_join(oracle, lex(front), lex(line), none);
}

// ---------------------------------------------------------------------------
// Stub definitions
// ---------------------------------------------------------------------------
spec fn stub_header(keyword: Seq<char>, name: Seq<char>) -> Seq<TokenView> {
    seq![
        TokenView { kind: SyntaxKind::WORD, text: keyword },
        TokenView { kind: SyntaxKind::WHITESPACE, text: seq![' '] },
        TokenView { kind: SyntaxKind::WORD, text: name },
        TokenView { kind: SyntaxKind::NEWLINE, text: seq!['\n'] },
    ]
}

spec fn stub_text(keyword: Seq<char>, name: Seq<char>) -> Seq<char> {
    keyword + " "@ + name + "\nEnd\n"@
}

proof fn lemma_stub_tokens(keyword: Seq<char>, name: Seq<char>)
    requires
        bare_word(keyword),
        bare_word(name),
    ensures
        lex(stub_text(keyword, name)) == stub_header(keyword, name) + lex("End\n"@),
{
    reveal_strlit(" ");
    reveal_strlit("\nEnd\n");
    reveal_strlit("End\n");
    let end = "End\n"@;
    let empty = Seq::<char>::empty();
    let newline = seq!['\n'];
    let header = keyword + (seq![' '] + name);
    assert(kind_of(name[0]) == SyntaxKind::WORD);
    assert((seq![' '] + name)[0] == ' ');
    lex_after_word(name, empty);
    assert(name + empty =~= name);
    lex_after_blanks(seq![' '], name);
    lex_after_word(keyword, seq![' '] + name);
    assert(header.last() == name.last());
    assert(kind_of(name[name.len() - 1]) == SyntaxKind::WORD);
    lex_before_ending(header, newline);
    lex_is_line_local(header + newline, end);
    assert(stub_text(keyword, name) =~= header + newline + end);
    assert(lex(empty) =~= Seq::<TokenView>::empty());
    assert(lex(header + newline) =~= stub_header(keyword, name));
}

/// What a stub parses to: one block with the name on its header line.
proof fn lemma_stub_parse<O: OpenerOracle>(oracle: O, keyword: Seq<char>, name: Seq<char>)
    requires
        bare_word(keyword),
        bare_word(name),
        !same_ignoring_case(keyword, "End"@),
        oracle.opens_file(keyword),
    ensures
        ({
            let children = parse_text(oracle, stub_text(keyword, name)).children;
            &&& children.len() == 1
            &&& children[0].element is Node
            &&& (children[0].element->Node_0).kind == SyntaxKind::BLOCK
            &&& (children[0].element->Node_0).head_word() matches Some(w) && w.text == keyword
            &&& (children[0].element->Node_0).second_word() matches Some(w) && w.text == name
        }),
{
    reveal(parse_text);
    let text = stub_text(keyword, name);
    let tokens = lex(text);
    lemma_stub_tokens(keyword, name);
    lemma_end_tokens();
    let (first, last) = (stub_header(keyword, name), lex("End\n"@));
    reveal_with_fuel(line_end, 7);
    assert(line_end(tokens, 0) == 4);
    assert(line_end(tokens, 4) == 6);
    assert(tokens.subrange(0, 4) =~= first);
    assert(tokens.subrange(4, 6) =~= last);
    let st = initial_state();
    // The header line.
    assert(first[0].kind == SyntaxKind::WORD);
    assert(!line_blank(first));
    assert(line_head(first) == Some(keyword)) by {
        reveal_with_fuel(line_head, 5);
        let three = first.drop_last();
        let two = three.drop_last();
        assert(two.drop_last().drop_last() =~= Seq::<TokenView>::empty());
    }
    let opened = step(oracle, st, first);
    assert(opened.stack.len() == 1);
    assert(opened.stack[0].kind == SyntaxKind::BLOCK);
    // The `End` line.
    assert(last[0].kind == SyntaxKind::WORD);
    assert(!line_blank(last));
    assert(line_head(last) == Some("End"@)) by {
        reveal_with_fuel(line_head, 3);
        assert(last.drop_last().drop_last() =~= Seq::<TokenView>::empty());
    }
    assert(line_is_end(last));
    let closed_state = step(oracle, opened, last);
    reveal_with_fuel(run, 3);
    assert(run(oracle, tokens, 0, st) == closed_state);
    assert(close_all(closed_state) == closed_state);
    let node = closed_state.done[0].element->Node_0;
    let leading = leaves(first, 0);
    assert(node.children =~= leading + leaves(last, opened.pos));
    assert(node.children.take(4) =~= leading);
    lemma_stub_words(node.children, first);
}

/// The words of a stub's header line.
proof fn lemma_stub_words(children: Seq<ElementView>, line: Seq<TokenView>)
    requires
        line.len() == 4,
        children.len() >= 4,
        children.take(4) == leaves(line, 0),
        line[0].kind == SyntaxKind::WORD,
        line[1].kind == SyntaxKind::WHITESPACE,
        line[2].kind == SyntaxKind::WORD,
        line[3].kind == SyntaxKind::NEWLINE,
    ensures
        words(header(children)).len() == 2,
        words(header(children))[0].text == line[0].text,
        words(header(children))[1].text == line[2].text,
{
    let all = leaves(line, 0);
    assert forall|k: int| 0 <= k < 4 implies #[trigger] children[k] == all[k] by {
        assert(children.take(4)[k] == children[k]);
    }
    let (a, b, c) = (all[0]->Token_0, all[1]->Token_0, all[2]->Token_0);
    let rest1 = children.drop_first();
    let rest2 = rest1.drop_first();
    let rest3 = rest2.drop_first();
    assert(rest1[0] == children[1]);
    assert(rest2[0] == children[2]);
    assert(rest3[0] == children[3]);
    assert(header(rest3) =~= Seq::<LeafView>::empty());
    assert(header(rest2) =~= seq![c]);
    assert(header(rest1) =~= seq![b, c]);
    assert(header(children) =~= seq![a, b, c]);
    let h = seq![a, b, c];
    reveal_with_fuel(words, 4);
    assert(h.drop_last() =~= seq![a, b]);
    assert(seq![a, b].drop_last() =~= seq![a]);
    assert(seq![a].drop_last() =~= Seq::<LeafView>::empty());
    assert(words(h) =~= seq![a, c]);
}

/// Definitions of later elements are definitions of the document.
proof fn lemma_defined_last(schema: Schema, children: Seq<ChildView>)
    requires
        children.len() > 0,
        definition_of(schema, children.last()) is Some,
    ensures
        definitions_of(schema, children).contains(definition_of(schema, children.last())->0),
{
    let all = definitions_of(schema, children);
    assert(all[all.len() - 1] == definition_of(schema, children.last())->0);
}

/// Some definition is of the given kind and name.
pub open spec fn defines(found: Seq<DefinitionView>, kind: RefKind, name: Seq<char>) -> bool {
    exists|i: int| 0 <= i < found.len() && (#[trigger] found[i]).kind == kind && found[i].name == name
}

/// Law: creating a stub for a name, as the fix does at the end of a text that
/// leaves no scope open, defines the name.
pub proof fn created_stub_defines_the_name<O: OpenerOracle>(
    oracle: O,
    schema: Schema,
    s: Seq<char>,
    kind: RefKind,
    keyword: Seq<char>,
    name: Seq<char>,
)
    requires
        bare_word(keyword),
        bare_word(name),
        !same_ignoring_case(keyword, "End"@),
        oracle.opens_file(keyword),
        block_named(schema.blocks@, keyword) matches Some(block) && block.defines == Some(kind),
        unterminated(parse_text(oracle, s).errors) == 0,
    ensures
        defines(
            definitions_of(
                schema,
                parse_text(
                    oracle,
                    s + (line_lead(s) + "\n"@ + keyword + " "@ + name + "\nEnd\n"@),
                ).children,
            ),
            kind,
            name,
        ),
{
    reveal_strlit("\n");
    let none = Seq::<Seq<char>>::empty();
    let stub = line_lead(s) + "\n"@ + keyword + " "@ + name + "\nEnd\n"@;
    let whole = s + line_lead(s);
    let front = whole + seq!['\n'];
    let text = stub_text(keyword, name);
    open_scopes_are_reported(oracle, s);
    lemma_completed(oracle, none, s);
    lex_before_ending(whole, seq!['\n']);
    let newline = TokenView { kind: SyntaxKind::NEWLINE, text: seq!['\n'] };
    lemma_newline_last(oracle, lex(whole), newline, 0, none);
    lemma_run_heads(oracle, lex(front), 0, initial_state());
    let st = run(oracle, lex(front), 0, initial_state());
    assert(heads_of(initial_state().stack) =~= none);
    assert(heads_of(st.stack).len() == st.stack.len());
    assert(closed(oracle, front));
    assert("\n"@ =~= seq!['\n']);
    assert(s + stub =~= front + text);
    parse_is_compositional(oracle, front, text);
    lemma_stub_parse(oracle, keyword, name);
    let first = parse_text(oracle, front);
    let rest = parse_text(oracle, text);
    let children = joined(first, rest).children;
    assert(children.last().element == rest.children[0].element);
    lemma_defined_last(schema, children);
    let found = definitions_of(schema, children);
    let made = definition_of(schema, children.last())->0;
    let i = choose|i: int| 0 <= i < found.len() && found[i] == made;
    assert(found[i].kind == kind && found[i].name == name);
}

} // verus!
