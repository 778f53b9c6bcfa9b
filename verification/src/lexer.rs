//! Tokenizer for the Generals INI format.
//!
//! The default separators are `" \n\r\t="`, `;` starts a comment that runs to
//! end of line, and `"` delimits a quoted string. `:` and `%` are only
//! separators inside specific value parsers, so at the token level they are
//! part of a `WORD`.

use vstd::prelude::*;
use vstd::string::*;
use vstd::utf8::*;

use crate::kind::SyntaxKind;
use crate::text::{blen, byte_at, char_width, chars_of, lemma_byte_at_split, lemma_byte_at_step};

verus! {

/// The text and kind of one token.
pub struct TokenView {
    pub kind: SyntaxKind,
    pub text: Seq<char>,
}

pub open spec fn blank_char(c: char) -> bool {
    c == ' ' || c == '\t'
}

pub open spec fn eol_char(c: char) -> bool {
    c == '\n' || c == '\r'
}

/// The kind of a token that starts with `c`.
pub open spec fn kind_of(c: char) -> SyntaxKind {
    if blank_char(c) {
        SyntaxKind::WHITESPACE
    } else if eol_char(c) {
        SyntaxKind::NEWLINE
    } else if c == ';' {
        SyntaxKind::COMMENT
    } else if c == '=' {
        SyntaxKind::EQUALS
    } else if c == '"' {
        SyntaxKind::STRING
    } else {
        SyntaxKind::WORD
    }
}

/// Whether `c` continues a token of the given kind after its first character.
pub open spec fn continues(kind: SyntaxKind, c: char) -> bool {
    match kind {
        SyntaxKind::WHITESPACE => blank_char(c),
        SyntaxKind::COMMENT => !eol_char(c),
        SyntaxKind::STRING => !eol_char(c) && c != '"',
        SyntaxKind::WORD => kind_of(c) == SyntaxKind::WORD,
        _ => false,
    }
}

/// The first index at or after `i` whose character does not continue a token
/// of the given kind.
pub open spec fn run_end(s: Seq<char>, kind: SyntaxKind, i: int) -> int
    decreases s.len() - i,
{
    if 0 <= i < s.len() && continues(kind, s[i]) {
        run_end(s, kind, i + 1)
    } else {
        i
    }
}

/// The index just past the token that starts at `i`.
pub open spec fn token_end(s: Seq<char>, i: int) -> int {
    let end = run_end(s, kind_of(s[i]), i + 1);
    if s[i] == '\r' && i + 1 < s.len() && s[i + 1] == '\n' {
        i + 2
    } else if s[i] == '"' && end < s.len() && s[end] == '"' {
        end + 1
    } else {
        end
    }
}

/// The tokens of `s` from character `i` on.
pub open spec fn lex_from(s: Seq<char>, i: int) -> Seq<TokenView>
    decreases s.len() - i,
{
    if 0 <= i < s.len() {
        let end = token_end(s, i);
        proof {
            lemma_token_end(s, i);
        }
        seq![TokenView { kind: kind_of(s[i]), text: s.subrange(i, end) }] + lex_from(s, end)
    } else {
        Seq::empty()
    }
}

/// The tokens of a text.
pub open spec fn lex(s: Seq<char>) -> Seq<TokenView> {
    lex_from(s, 0)
}

/// The concatenated texts of a token sequence.
pub open spec fn token_text(tokens: Seq<TokenView>) -> Seq<char>
    decreases tokens.len(),
{
    if tokens.len() == 0 {
        Seq::empty()
    } else {
        tokens[0].text + token_text(tokens.drop_first())
    }
}

/// The byte offset at which token `k` of a sequence starts.
pub open spec fn token_offset(tokens: Seq<TokenView>, k: int) -> int {
    blen(token_text(tokens.take(k))) as int
}

pub proof fn lemma_run_end(s: Seq<char>, kind: SyntaxKind, i: int)
    requires
        0 <= i <= s.len(),
    ensures
        i <= run_end(s, kind, i) <= s.len(),
        run_end(s, kind, i) < s.len() ==> !continues(kind, s[run_end(s, kind, i)]),
        forall|j: int| i <= j < run_end(s, kind, i) ==> continues(kind, #[trigger] s[j]),
    decreases s.len() - i,
{
    if i < s.len() && continues(kind, s[i]) {
        lemma_run_end(s, kind, i + 1);
    }
}

/// Every token is non-empty and ends inside the text.
pub proof fn lemma_token_end(s: Seq<char>, i: int)
    requires
        0 <= i < s.len(),
    ensures
        i < token_end(s, i) <= s.len(),
{
    lemma_run_end(s, kind_of(s[i]), i + 1);
}

pub proof fn lemma_token_text_concat(a: Seq<TokenView>, b: Seq<TokenView>)
    ensures
        token_text(a + b) == token_text(a) + token_text(b),
    decreases a.len(),
{
    if a.len() == 0 {
        assert(a + b =~= b);
        assert(token_text(a) + token_text(b) =~= token_text(b));
    } else {
        lemma_token_text_concat(a.drop_first(), b);
        assert((a + b).drop_first() =~= a.drop_first() + b);
        assert(token_text(a + b) =~= token_text(a) + token_text(b));
    }
}

pub proof fn lemma_token_text_one(t: TokenView)
    ensures
        token_text(seq![t]) == t.text,
{
    assert(seq![t].drop_first() =~= Seq::<TokenView>::empty());
    reveal_with_fuel(token_text, 2);
    assert(t.text + Seq::<char>::empty() =~= t.text);
}

proof fn lemma_lex_from_lossless(s: Seq<char>, i: int)
    requires
        0 <= i <= s.len(),
    ensures
        token_text(lex_from(s, i)) == s.skip(i),
    decreases s.len() - i,
{
    if i < s.len() {
        let end = token_end(s, i);
        lemma_token_end(s, i);
        lemma_lex_from_lossless(s, end);
        let tok = TokenView { kind: kind_of(s[i]), text: s.subrange(i, end) };
        lemma_token_text_concat(seq![tok], lex_from(s, end));
        lemma_token_text_one(tok);
        assert(s.subrange(i, end) + s.skip(end) =~= s.skip(i));
    } else {
        assert(s.skip(i) =~= Seq::<char>::empty());
    }
}

/// Tokenizing is lossless: the token texts, in order, spell the input.
pub proof fn lex_is_lossless(s: Seq<char>)
    ensures
        token_text(lex(s)) == s,
{
    lemma_lex_from_lossless(s, 0);
    assert(s.skip(0) =~= s);
}

proof fn lemma_lex_from_tokens(s: Seq<char>, i: int, k: int)
    requires
        0 <= i <= s.len(),
        0 <= k < lex_from(s, i).len(),
    ensures
        lex_from(s, i)[k].text.len() > 0,
        lex_from(s, i)[k].kind == kind_of(lex_from(s, i)[k].text[0]),
        forall|j: int|
            0 <= j < lex_from(s, i)[k].text.len() && eol_char(#[trigger] lex_from(s, i)[k].text[j])
                ==> lex_from(s, i)[k].kind == SyntaxKind::NEWLINE,
    decreases s.len() - i,
{
    let end = token_end(s, i);
    lemma_token_end(s, i);
    if k == 0 {
        lemma_run_end(s, kind_of(s[i]), i + 1);
        let text = s.subrange(i, end);
        assert(lex_from(s, i)[0].text == text);
        assert forall|j: int| 0 <= j < text.len() && eol_char(#[trigger] text[j]) implies kind_of(
            s[i],
        ) == SyntaxKind::NEWLINE by {
            assert(text[j] == s[i + j]);
        }
    } else {
        lemma_lex_from_tokens(s, end, k - 1);
        assert(lex_from(s, i)[k] == lex_from(s, end)[k - 1]);
    }
}

/// Every token is non-empty, its kind is decided by its first character, and
/// only a `NEWLINE` token holds a line-ending character.
pub proof fn lex_token_shape(s: Seq<char>, k: int)
    requires
        0 <= k < lex(s).len(),
    ensures
        lex(s)[k].text.len() > 0,
        lex(s)[k].kind == kind_of(lex(s)[k].text[0]),
        forall|j: int|
            0 <= j < lex(s)[k].text.len() && eol_char(#[trigger] lex(s)[k].text[j])
                ==> lex(s)[k].kind == SyntaxKind::NEWLINE,
{
    lemma_lex_from_tokens(s, 0, k);
}

proof fn lemma_run_end_local(a: Seq<char>, b: Seq<char>, kind: SyntaxKind, i: int)
    requires
        0 <= i <= a.len(),
        exists|k: int| i <= k < a.len() && !continues(kind, #[trigger] a[k]),
    ensures
        run_end(a + b, kind, i) == run_end(a, kind, i),
        run_end(a, kind, i) < a.len(),
    decreases a.len() - i,
{
    let k = choose|k: int| i <= k < a.len() && !continues(kind, #[trigger] a[k]);
    assert((a + b)[i] == a[i]);
    if continues(kind, a[i]) {
        assert(i + 1 <= k < a.len() && !continues(kind, a[k]));
        lemma_run_end_local(a, b, kind, i + 1);
    }
}

proof fn lemma_token_end_local(a: Seq<char>, b: Seq<char>, i: int)
    requires
        0 <= i < a.len(),
        a.last() == '\n',
    ensures
        token_end(a + b, i) == token_end(a, i),
{
    let kind = kind_of(a[i]);
    assert((a + b)[i] == a[i]);
    if i + 1 < a.len() {
        assert(!continues(kind, a[a.len() - 1]));
        lemma_run_end_local(a, b, kind, i + 1);
        lemma_run_end(a, kind, i + 1);
        assert((a + b)[i + 1] == a[i + 1]);
        let end = run_end(a, kind, i + 1);
        assert((a + b)[end] == a[end]);
    } else {
        assert(a[i] == '\n');
    }
}

proof fn lemma_lex_from_concat(a: Seq<char>, b: Seq<char>, i: int)
    requires
        0 <= i <= a.len(),
        a.len() == 0 || a.last() == '\n',
    ensures
        lex_from(a + b, i) == lex_from(a, i) + lex_from(a + b, a.len() as int),
    decreases a.len() - i,
{
    if i < a.len() {
        let end = token_end(a, i);
        lemma_token_end(a, i);
        lemma_token_end_local(a, b, i);
        lemma_lex_from_concat(a, b, end);
        assert((a + b).subrange(i, end) =~= a.subrange(i, end));
        assert((a + b)[i] == a[i]);
        let tok = seq![TokenView { kind: kind_of(a[i]), text: a.subrange(i, end) }];
        assert(lex_from(a + b, i) =~= tok + lex_from(a + b, end));
        assert(lex_from(a + b, i) =~= lex_from(a, i) + lex_from(a + b, a.len() as int));
    } else {
        assert(lex_from(a, i) + lex_from(a + b, a.len() as int) =~= lex_from(a + b, i));
    }
}

proof fn lemma_run_end_shift(a: Seq<char>, b: Seq<char>, kind: SyntaxKind, i: int)
    requires
        0 <= i <= b.len(),
    ensures
        run_end(a + b, kind, a.len() + i) == a.len() + run_end(b, kind, i),
    decreases b.len() - i,
{
    if i < b.len() {
        assert((a + b)[a.len() + i] == b[i]);
        if continues(kind, b[i]) {
            lemma_run_end_shift(a, b, kind, i + 1);
        }
    }
}

pub proof fn lemma_lex_from_shift(a: Seq<char>, b: Seq<char>, i: int)
    requires
        0 <= i <= b.len(),
    ensures
        lex_from(a + b, a.len() + i) == lex_from(b, i),
    decreases b.len() - i,
{
    if i < b.len() {
        let end = token_end(b, i);
        lemma_token_end(b, i);
        lemma_run_end(b, kind_of(b[i]), i + 1);
        lemma_run_end_shift(a, b, kind_of(b[i]), i + 1);
        assert((a + b)[a.len() + i] == b[i]);
        if i + 1 < b.len() {
            assert((a + b)[a.len() + i + 1] == b[i + 1]);
        }
        let run = run_end(b, kind_of(b[i]), i + 1);
        if run < b.len() {
            assert((a + b)[a.len() + run] == b[run]);
        }
        assert(token_end(a + b, a.len() + i) == a.len() + end);
        assert((a + b).subrange(a.len() + i, a.len() + end) =~= b.subrange(i, end));
        lemma_lex_from_shift(a, b, end);
    }
}

/// Tokenizing is line-local: text that ends with a newline is tokenized
/// independently of what follows it.
pub proof fn lex_is_line_local(a: Seq<char>, b: Seq<char>)
    requires
        a.len() == 0 || a.last() == '\n',
    ensures
        lex(a + b) == lex(a) + lex(b),
{
    lemma_lex_from_concat(a, b, 0);
    lemma_lex_from_shift(a, b, 0);
}

/// Blanks before other text are a token of their own.
pub proof fn lex_after_blanks(blanks: Seq<char>, rest: Seq<char>)
    requires
        forall|k: int| 0 <= k < blanks.len() ==> blank_char(#[trigger] blanks[k]),
        rest.len() > 0,
        !blank_char(rest[0]),
    ensures
        blanks.len() == 0 ==> lex(blanks + rest) == lex(rest),
        blanks.len() > 0 ==> lex(blanks + rest) == seq![
            TokenView { kind: SyntaxKind::WHITESPACE, text: blanks },
        ] + lex(rest),
{
    let s = blanks + rest;
    if blanks.len() == 0 {
        assert(s =~= rest);
    } else {
        let n = blanks.len() as int;
        let end = run_end(s, SyntaxKind::WHITESPACE, 1);
        assert(s[0] == blanks[0]);
        lemma_run_end(s, SyntaxKind::WHITESPACE, 1);
        if end < n {
            assert(s[end] == blanks[end]);
        }
        if end > n {
            assert(s[n] == rest[0]);
        }
        assert(token_end(s, 0) == n);
        assert(s.subrange(0, n) =~= blanks);
        lemma_lex_from_shift(blanks, rest, 0);
    }
}

/// A text that is one bare word.
pub open spec fn bare_word(s: Seq<char>) -> bool {
    &&& s.len() > 0
    &&& forall|k: int| 0 <= k < s.len() ==> kind_of(#[trigger] s[k]) == SyntaxKind::WORD
}

/// A word is a token of its own when something else follows it.
pub proof fn lex_after_word(word: Seq<char>, rest: Seq<char>)
    requires
        bare_word(word),
        rest.len() > 0 ==> kind_of(rest[0]) != SyntaxKind::WORD,
    ensures
        lex(word + rest) == seq![TokenView { kind: SyntaxKind::WORD, text: word }] + lex(rest),
{
    let s = word + rest;
    let n = word.len() as int;
    let end = run_end(s, SyntaxKind::WORD, 1);
    assert(s[0] == word[0]);
    lemma_run_end(s, SyntaxKind::WORD, 1);
    if end < n {
        assert(s[end] == word[end]);
    }
    if end > n {
        assert(s[n] == rest[0]);
    }
    assert(token_end(s, 0) == n);
    assert(s.subrange(0, n) =~= word);
    lemma_lex_from_shift(word, rest, 0);
}

/// A text that is read as one word holds nothing but characters of words.
pub proof fn lex_word_holds_words(s: Seq<char>)
    requires
        lex(s) == seq![TokenView { kind: SyntaxKind::WORD, text: s }],
    ensures
        bare_word(s),
{
    lex_token_shape(s, 0);
    assert(lex(s)[0].text == s);
    let end = token_end(s, 0);
    lemma_run_end(s, SyntaxKind::WORD, 1);
    assert(lex(s)[0].text == s.subrange(0, end));
    assert(end == s.len());
}

/// One of the ways to end a line.
pub open spec fn line_ending(s: Seq<char>) -> bool {
    s == seq!['\n'] || s == seq!['\r'] || s == seq!['\r', '\n']
}

proof fn lemma_lex_from_ending(s: Seq<char>, ending: Seq<char>, i: int)
    requires
        0 <= i <= s.len(),
        line_ending(ending),
        s.len() > 0 && s.last() == '\r' ==> ending[0] != '\n',
    ensures
        lex_from(s + ending, i) == lex_from(s, i) + lex_from(s + ending, s.len() as int),
    decreases s.len() - i,
{
    let all = s + ending;
    if i < s.len() {
        let kind = kind_of(s[i]);
        let end = token_end(s, i);
        lemma_token_end(s, i);
        assert(all[i] == s[i]);
        lemma_run_end(s, kind, i + 1);
        lemma_run_end(all, kind, i + 1);
        let (short, long) = (run_end(s, kind, i + 1), run_end(all, kind, i + 1));
        assert(all[s.len() as int] == ending[0]);
        assert(!continues(kind, ending[0]));
        if long < short {
            assert(all[long] == s[long]);
        }
        if short < long {
            if short < s.len() {
                assert(all[short] == s[short]);
            }
        }
        assert(short == long);
        if short < s.len() {
            assert(all[short] == s[short]);
        }
        if i + 1 < s.len() {
            assert(all[i + 1] == s[i + 1]);
        }
        assert(token_end(all, i) == end);
        lemma_lex_from_ending(s, ending, end);
        assert(all.subrange(i, end) =~= s.subrange(i, end));
        let token = seq![TokenView { kind, text: s.subrange(i, end) }];
        assert(lex_from(all, i) =~= token + lex_from(all, end));
        assert(lex_from(all, i) =~= lex_from(s, i) + lex_from(all, s.len() as int));
    } else {
        assert(lex_from(s, i) + lex_from(all, i) =~= lex_from(all, i));
    }
}

/// A line ending is a token of its own, unless it completes a `\\r` before it.
pub proof fn lex_before_ending(s: Seq<char>, ending: Seq<char>)
    requires
        line_ending(ending),
        s.len() > 0 && s.last() == '\r' ==> ending[0] != '\n',
    ensures
        lex(s + ending) == lex(s).push(TokenView { kind: SyntaxKind::NEWLINE, text: ending }),
{
    let n = ending.len() as int;
    lemma_lex_from_ending(s, ending, 0);
    lemma_lex_from_shift(s, ending, 0);
    lemma_run_end(ending, SyntaxKind::NEWLINE, 1);
    assert(token_end(ending, 0) == n);
    assert(ending.subrange(0, n) =~= ending);
    reveal_with_fuel(lex_from, 2);
    assert(lex_from(ending, n) =~= Seq::<TokenView>::empty());
    assert(lex(s + ending) =~= lex(s).push(TokenView { kind: SyntaxKind::NEWLINE, text: ending }));
}

/// One lexed token: its kind and its half-open byte range in the source.
#[derive(Debug, Clone, Copy, PartialEq, Eq, Structural)]
pub struct Token {
    pub kind: SyntaxKind,
    pub start: usize,
    pub end: usize,
}

impl Token {
    /// The bytes of `src` that the token covers.
    pub fn text<'a>(&self, src: &'a str) -> (text: &'a str)
        requires
            self.start <= self.end <= src.spec_bytes().len(),
            is_char_boundary(src.spec_bytes(), self.start as int),
            is_char_boundary(src.spec_bytes(), self.end as int),
        ensures
            text.spec_bytes() == src.spec_bytes().subrange(self.start as int, self.end as int),
    {
        let (head, _) = src.split_at(self.end);
        proof {
            encode_utf8_valid_utf8(src@);
            encode_utf8_valid_utf8(head@);
            is_char_boundary_start_end_of_seq(head.spec_bytes());
            if self.start < self.end {
                is_char_boundary_iff_not_is_continuation_byte(src.spec_bytes(), self.start as int);
                is_char_boundary_iff_not_is_continuation_byte(head.spec_bytes(), self.start as int);
            }
        }
        let (_, text) = head.split_at(self.start);
        proof {
            assert(text.spec_bytes() =~= src.spec_bytes().subrange(
                self.start as int,
                self.end as int,
            ));
        }
        text
    }

    pub fn len(&self) -> (len: usize)
        requires
            self.start <= self.end,
        ensures
            len == self.end - self.start,
    {
        self.end - self.start
    }

    pub fn is_empty(&self) -> (empty: bool)
        ensures
            empty == (self.end == self.start),
    {
        self.end == self.start
    }
}

/// `tokens` are the kinds and byte ranges of the token sequence `lexed`.
pub open spec fn describes(tokens: Seq<Token>, lexed: Seq<TokenView>) -> bool {
    &&& tokens.len() == lexed.len()
    &&& forall|k: int| #![trigger tokens[k]]
        0 <= k < tokens.len() ==> {
            &&& tokens[k].kind == lexed[k].kind
            &&& tokens[k].start == token_offset(lexed, k)
            &&& tokens[k].end == token_offset(lexed, k + 1)
        }
}

fn kind_of_char(c: char) -> (kind: SyntaxKind)
    ensures
        kind == kind_of(c),
{
    match c {
        ' ' | '\t' => SyntaxKind::WHITESPACE,
        '\n' | '\r' => SyntaxKind::NEWLINE,
        ';' => SyntaxKind::COMMENT,
        '=' => SyntaxKind::EQUALS,
        '"' => SyntaxKind::STRING,
        _ => SyntaxKind::WORD,
    }
}

fn char_continues(kind: SyntaxKind, c: char) -> (yes: bool)
    ensures
        yes == continues(kind, c),
{
    match kind {
        SyntaxKind::WHITESPACE => c == ' ' || c == '\t',
        SyntaxKind::COMMENT => c != '\n' && c != '\r',
        SyntaxKind::STRING => c != '\n' && c != '\r' && c != '"',
        SyntaxKind::WORD => kind_of_char(c) == SyntaxKind::WORD,
        _ => false,
    }
}

/// The end of the run of characters that continue a token, with its byte offset.
fn scan_run(chars: &Vec<char>, kind: SyntaxKind, from: usize, offset: usize) -> (end: (usize, usize))
    requires
        from <= chars@.len(),
        offset == byte_at(chars@, from as int),
        blen(chars@) <= usize::MAX,
    ensures
        end.0 == run_end(chars@, kind, from as int),
        from <= end.0 <= chars@.len(),
        end.1 == byte_at(chars@, end.0 as int),
{
    let mut i: usize = from;
    let mut at: usize = offset;
    while i < chars.len() && char_continues(kind, chars[i])
        invariant
            from <= i <= chars@.len(),
            at == byte_at(chars@, i as int),
            blen(chars@) <= usize::MAX,
            run_end(chars@, kind, from as int) == run_end(chars@, kind, i as int),
        decreases chars@.len() - i,
    {
        proof {
            lemma_byte_at_step(chars@, i as int);
            lemma_byte_at_split(chars@, i + 1, chars@.len() as int);
        }
        at += char_width(chars[i]);
        i += 1;
    }
    (i, at)
}

/// The end of the token that starts at `i`, with its byte offset.
fn scan_token(chars: &Vec<char>, i: usize, offset: usize) -> (end: (usize, usize))
    requires
        i < chars@.len(),
        offset == byte_at(chars@, i as int),
        blen(chars@) <= usize::MAX,
    ensures
        end.0 == token_end(chars@, i as int),
        i < end.0 <= chars@.len(),
        end.1 == byte_at(chars@, end.0 as int),
{
    proof {
        lemma_token_end(chars@, i as int);
        lemma_byte_at_step(chars@, i as int);
        lemma_byte_at_split(chars@, i + 1, chars@.len() as int);
    }
    let total: usize = chars.len();
    let first = chars[i];
    let after: usize = offset + char_width(first);
    if first == '\r' && i + 1 < total && chars[i + 1] == '\n' {
        proof {
            lemma_byte_at_step(chars@, i + 1);
            lemma_byte_at_split(chars@, i + 2, chars@.len() as int);
        }
        return (i + 2, after + char_width(chars[i + 1]));
    }
    let (end, at) = scan_run(chars, kind_of_char(first), i + 1, after);
    if first == '"' && end < total && chars[end] == '"' {
        proof {
            lemma_byte_at_step(chars@, end as int);
            lemma_byte_at_split(chars@, end + 1, chars@.len() as int);
        }
        return (end + 1, at + char_width(chars[end]));
    }
    (end, at)
}

/// The byte length of a string slice fits in `usize`.
pub(crate) fn byte_len(s: &str) -> (len: usize)
    ensures
        len == blen(s@),
        blen(s@) <= usize::MAX,
{
    s.as_bytes().len()
}

/// Tokenize `src` into a flat list of contiguous tokens covering all of it.
pub fn tokenize(src: &str) -> (out: Vec<Token>)
    ensures
        describes(out@, lex(src@)),
{
    let _ = byte_len(src);
    let chars = chars_of(src);
    let mut out: Vec<Token> = Vec::new();
    let mut i: usize = 0;
    let mut offset: usize = 0;
    let ghost mut done: Seq<TokenView> = Seq::empty();
    proof {
        lemma_byte_at_split(src@, 0, src@.len() as int);
        assert(done + lex_from(src@, 0) =~= lex(src@));
        assert(src@.take(0) =~= Seq::<char>::empty());
    }
    while i < chars.len()
        invariant
            chars@ == src@,
            blen(src@) <= usize::MAX,
            i <= chars@.len(),
            offset == byte_at(src@, i as int),
            done + lex_from(src@, i as int) == lex(src@),
            token_text(done) == src@.take(i as int),
            describes(out@, done),
        decreases chars@.len() - i,
    {
        let (end, at) = scan_token(&chars, i, offset);
        let kind = kind_of_char(chars[i]);
        out.push(Token { kind, start: offset, end: at });
        proof {
            let tok = TokenView { kind, text: src@.subrange(i as int, end as int) };
            let before = done;
            done = done.push(tok);
            assert(before + lex_from(src@, i as int) =~= done + lex_from(src@, end as int));
            assert(done =~= before + seq![tok]);
            lemma_token_text_concat(before, seq![tok]);
            lemma_token_text_one(tok);
            assert(src@.take(end as int) =~= src@.take(i as int) + tok.text);
            assert forall|k: int| #![trigger out@[k]] 0 <= k < out@.len() implies {
                &&& out@[k].kind == done[k].kind
                &&& out@[k].start == token_offset(done, k)
                &&& out@[k].end == token_offset(done, k + 1)
            } by {
                if k < before.len() {
                    assert(done.take(k) =~= before.take(k));
                    assert(done.take(k + 1) =~= before.take(k + 1));
                } else {
                    assert(done.take(k) =~= before);
                    assert(done.take(k + 1) =~= done);
                }
            }
        }
        i = end;
        offset = at;
    }
    proof {
        assert(lex_from(src@, i as int) =~= Seq::<TokenView>::empty());
        assert(done + lex_from(src@, i as int) =~= done);
    }
    out
}

} // verus!
