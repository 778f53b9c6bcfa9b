//! Semantic tokens on the wire: each token as its distance from the one before,
//! and a new result as one splice of the old.

use ropey::Rope;
use vstd::prelude::*;
use vstd::string::*;

use crate::convert::{
    char_index, columns, count_columns, index_at, lemma_char_index, lemma_char_index_monotone,
    lemma_columns_bound, locate, position_at, positions_keep_order, Position, PositionEnc,
};
use crate::numbers::{decimal, to_decimal};
use crate::rope::{rope_chars, rope_text};
use crate::semantic::{SemKind, SemToken};
use crate::text::{blen, lemma_byte_at_split, same};

verus! {

/// A semantic token as the protocol carries it.
#[derive(Debug, Clone, Copy, PartialEq, Eq, Structural)]
pub struct WireToken {
    pub delta_line: u32,
    pub delta_start: u32,
    pub length: u32,
    pub token_type: u32,
    pub token_modifiers_bitset: u32,
}

/// The place of a classification in the legend: keyword, class, property, type,
/// enum member, operator, number, string, variable, comment.
pub open spec fn legend_index(kind: SemKind) -> u32 {
    match kind {
        SemKind::Keyword => 0,
        SemKind::BlockName => 1,
        SemKind::Field => 2,
        SemKind::Module => 3,
        SemKind::EnumMember => 4,
        SemKind::Operator => 5,
        SemKind::Number => 6,
        SemKind::StringLit => 7,
        SemKind::Reference => 8,
        SemKind::Comment => 9,
    }
}

/// The place of a classification in the legend.
pub fn sem_kind_index(kind: SemKind) -> (index: u32)
    ensures
        index == legend_index(kind),
        index < 10,
{
    match kind {
        SemKind::Keyword => 0,
        SemKind::BlockName => 1,
        SemKind::Field => 2,
        SemKind::Module => 3,
        SemKind::EnumMember => 4,
        SemKind::Operator => 5,
        SemKind::Number => 6,
        SemKind::StringLit => 7,
        SemKind::Reference => 8,
        SemKind::Comment => 9,
    }
}

/// Tokens sorted by start, none ending before it starts.
pub open spec fn sorted_by_start(tokens: Seq<SemToken>) -> bool {
    &&& forall|i: int, j: int| #![trigger tokens[i], tokens[j]]
        0 <= i < j < tokens.len() ==> tokens[i].span.start <= tokens[j].span.start
    &&& forall|i: int|
        0 <= i < tokens.len() ==> (#[trigger] tokens[i]).span.start <= tokens[i].span.end
}

/// The columns that a token covers.
pub open spec fn token_length(s: Seq<char>, token: SemToken, enc: PositionEnc) -> nat {
    columns(
        s.subrange(
            char_index(s, token.span.start as int),
            char_index(s, token.span.end as int),
        ),
        enc,
    )
}

/// Where the token before `i` starts; the start of the text before the first.
pub open spec fn previous_start(
    s: Seq<char>,
    tokens: Seq<SemToken>,
    i: int,
    enc: PositionEnc,
) -> Position {
    if i <= 0 {
        Position { line: 0, character: 0 }
    } else {
        locate(s, tokens[i - 1].span.start as int, enc)
    }
}

/// Token `i` relative to the one before: how many lines further down, and how
/// many columns further on, from the line start on a new line.
pub open spec fn encoded_token(
    s: Seq<char>,
    tokens: Seq<SemToken>,
    i: int,
    enc: PositionEnc,
) -> WireToken {
    let before = previous_start(s, tokens, i, enc);
    let pos = locate(s, tokens[i].span.start as int, enc);
    WireToken {
        delta_line: (pos.line - before.line) as u32,
        delta_start: if pos.line == before.line {
            (pos.character - before.character) as u32
        } else {
            pos.character
        },
        length: token_length(s, tokens[i], enc) as u32,
        token_type: legend_index(tokens[i].kind),
        token_modifiers_bitset: 0,
    }
}

/// All tokens, each relative to the one before.
pub open spec fn encoded(s: Seq<char>, tokens: Seq<SemToken>, enc: PositionEnc) -> Seq<WireToken> {
    Seq::new(tokens.len(), |i: int| encoded_token(s, tokens, i, enc))
}

/// A token starts at or after the one before, and its length fits.
proof fn lemma_token_step(s: Seq<char>, tokens: Seq<SemToken>, i: int, enc: PositionEnc)
    requires
        sorted_by_start(tokens),
        0 <= i < tokens.len(),
        blen(s) <= u32::MAX,
    ensures
        ({
            let before = previous_start(s, tokens, i, enc);
            let pos = locate(s, tokens[i].span.start as int, enc);
            &&& before.line <= pos.line
            &&& before.line == pos.line ==> before.character <= pos.character
        }),
        0 <= char_index(s, tokens[i].span.start as int) <= char_index(
            s,
            tokens[i].span.end as int,
        ) <= s.len(),
        token_length(s, tokens[i], enc) <= blen(s),
{
    let token = tokens[i];
    if i > 0 {
        assert(tokens[i - 1].span.start <= token.span.start);
        positions_keep_order(s, tokens[i - 1].span.start as int, token.span.start as int, enc);
    }
    let a = char_index(s, token.span.start as int);
    let b = char_index(s, token.span.end as int);
    lemma_char_index(s, token.span.start as int);
    lemma_char_index(s, token.span.end as int);
    lemma_char_index_monotone(s, token.span.start as int, token.span.end as int);
    lemma_columns_bound(s.subrange(a, b), enc);
    lemma_byte_at_split(s, 0, a);
    lemma_byte_at_split(s, a, b);
    lemma_byte_at_split(s, b, s.len() as int);
}

/// Encode sorted tokens relative to one another, in the given encoding.
pub fn encode_tokens(rope: &Rope, tokens: &Vec<SemToken>, enc: PositionEnc) -> (out: Vec<WireToken>)
    requires
        blen(rope_text(*rope)) <= u32::MAX,
        sorted_by_start(tokens@),
    ensures
        out@ == encoded(rope_text(*rope), tokens@, enc),
{
    let ghost s = rope_text(*rope);
    let chars = rope_chars(rope);
    let mut out: Vec<WireToken> = Vec::new();
    let mut before = Position { line: 0, character: 0 };
    let mut i: usize = 0;
    while i < tokens.len()
        invariant
            i <= tokens.len(),
            blen(s) <= u32::MAX,
            s == rope_text(*rope),
            chars@ == s,
            sorted_by_start(tokens@),
            out.len() == i,
            before == previous_start(s, tokens@, i as int, enc),
            forall|j: int| 0 <= j < i ==> #[trigger] out[j] == encoded_token(s, tokens@, j, enc),
        decreases tokens.len() - i,
    {
        let token = tokens[i];
        proof {
            lemma_token_step(s, tokens@, i as int, enc);
        }
        let pos = position_at(rope, token.span.start, enc);
        let from = index_at(rope, token.span.start);
        let to = index_at(rope, token.span.end);
        let length = count_columns(&chars, from, to, enc);
        let delta_line = pos.line - before.line;
        let delta_start = if delta_line == 0 {
            pos.character - before.character
        } else {
            pos.character
        };
        out.push(
            WireToken {
                delta_line,
                delta_start,
                length,
                token_type: sem_kind_index(token.kind),
                token_modifiers_bitset: 0,
            },
        );
        before = pos;
        i += 1;
    }
    assert(out@ =~= encoded(s, tokens@, enc));
    out
}

/// Encode sorted tokens relative to one another, with columns in characters.
pub fn to_lsp_semantic_tokens(rope: &Rope, tokens: &Vec<SemToken>) -> (out: Vec<WireToken>)
    requires
        blen(rope_text(*rope)) <= u32::MAX,
        sorted_by_start(tokens@),
    ensures
        out@ == encoded(rope_text(*rope), tokens@, PositionEnc::Utf32),
{
    encode_tokens(rope, tokens, PositionEnc::Utf32)
}

/// The position that the first `n` wire tokens lead to.
pub open spec fn decoded_start(tokens: Seq<WireToken>, n: int) -> (int, int)
    decreases n,
{
    if n <= 0 {
        (0, 0)
    } else {
        let (line, character) = decoded_start(tokens, n - 1);
        let token = tokens[n - 1];
        (
            line + token.delta_line,
            if token.delta_line == 0 {
                character + token.delta_start
            } else {
                token.delta_start as int
            },
        )
    }
}

/// Law: adding up the distances gives back where each token starts.
pub proof fn decoding_gives_positions(
    s: Seq<char>,
    tokens: Seq<SemToken>,
    i: int,
    enc: PositionEnc,
)
    requires
        blen(s) <= u32::MAX,
        sorted_by_start(tokens),
        0 <= i < tokens.len(),
    ensures
        ({
            let pos = locate(s, tokens[i].span.start as int, enc);
            decoded_start(encoded(s, tokens, enc), i + 1) == (
                pos.line as int,
                pos.character as int,
            )
        }),
    decreases i,
{
    lemma_token_step(s, tokens, i, enc);
    assert(encoded(s, tokens, enc)[i] == encoded_token(s, tokens, i, enc));
    if i > 0 {
        decoding_gives_positions(s, tokens, i - 1, enc);
    } else {
        assert(decoded_start(encoded(s, tokens, enc), 0) == (0int, 0int));
    }
}

// ---------------------------------------------------------------------------
// Splices
// ---------------------------------------------------------------------------
/// A splice of an encoded result. Positions and counts are in numbers, five to
/// a token.
#[derive(Debug)]
pub struct TokenSplice {
    pub start: u32,
    pub delete_count: u32,
    pub data: Vec<WireToken>,
}

/// How many tokens two results have in common at the front, from `i` on.
pub open spec fn common_prefix(a: Seq<WireToken>, b: Seq<WireToken>, i: int) -> int
    decreases a.len() - i,
{
    if 0 <= i < a.len() && i < b.len() && a[i] == b[i] {
        common_prefix(a, b, i + 1)
    } else {
        i
    }
}

/// How many tokens two results have in common at the back, `n` of them known,
/// without reaching into the first `prefix`.
pub open spec fn common_suffix(a: Seq<WireToken>, b: Seq<WireToken>, prefix: int, n: int) -> int
    decreases a.len() - prefix - n,
{
    if 0 <= n && prefix + n < a.len() && prefix + n < b.len() && a[a.len() - 1 - n] == b[b.len() - 1
        - n] {
        common_suffix(a, b, prefix, n + 1)
    } else {
        n
    }
}

/// The tokens that a splice deletes: from where on, and how many.
pub open spec fn splice_bounds(prev: Seq<WireToken>, next: Seq<WireToken>) -> (int, int, int) {
    let prefix = common_prefix(prev, next, 0);
    let suffix = common_suffix(prev, next, prefix, 0);
    (prefix, prev.len() - suffix, next.len() - suffix)
}

/// A result after a splice given in numbers.
pub open spec fn spliced(
    prev: Seq<WireToken>,
    start: int,
    delete_count: int,
    data: Seq<WireToken>,
) -> Seq<WireToken> {
    prev.take(start / 5) + data + prev.skip((start + delete_count) / 5)
}

proof fn lemma_prefix(a: Seq<WireToken>, b: Seq<WireToken>, i: int)
    requires
        0 <= i <= a.len(),
        i <= b.len(),
        a.take(i) == b.take(i),
    ensures
        i <= common_prefix(a, b, i) <= a.len(),
        common_prefix(a, b, i) <= b.len(),
        a.take(common_prefix(a, b, i)) == b.take(common_prefix(a, b, i)),
    decreases a.len() - i,
{
    if i < a.len() && i < b.len() && a[i] == b[i] {
        assert(a.take(i + 1) =~= a.take(i).push(a[i]));
        assert(b.take(i + 1) =~= b.take(i).push(b[i]));
        lemma_prefix(a, b, i + 1);
    }
}

proof fn lemma_suffix(a: Seq<WireToken>, b: Seq<WireToken>, prefix: int, n: int)
    requires
        0 <= n,
        0 <= prefix,
        prefix + n <= a.len(),
        prefix + n <= b.len(),
        a.skip(a.len() - n) == b.skip(b.len() - n),
    ensures
        ({
            let m = common_suffix(a, b, prefix, n);
            &&& n <= m
            &&& prefix + m <= a.len()
            &&& prefix + m <= b.len()
            &&& a.skip(a.len() - m) == b.skip(b.len() - m)
        }),
    decreases a.len() - n,
{
    if prefix + n < a.len() && prefix + n < b.len() && a[a.len() - 1 - n] == b[b.len() - 1 - n] {
        assert(a.skip(a.len() - (n + 1)) =~= seq![a[a.len() - 1 - n]] + a.skip(a.len() - n));
        assert(b.skip(b.len() - (n + 1)) =~= seq![b[b.len() - 1 - n]] + b.skip(b.len() - n));
        lemma_suffix(a, b, prefix, n + 1);
    }
}

/// Bounds of a splice lie inside both results.
pub proof fn lemma_bounds(prev: Seq<WireToken>, next: Seq<WireToken>)
    ensures
        ({
            let (prefix, prev_end, next_end) = splice_bounds(prev, next);
            &&& 0 <= prefix <= prev_end <= prev.len()
            &&& prefix <= next_end <= next.len()
            &&& prev.take(prefix) == next.take(prefix)
            &&& prev.skip(prev_end) == next.skip(next_end)
        }),
{
    assert(prev.take(0) =~= next.take(0));
    lemma_prefix(prev, next, 0);
    assert(prev.skip(prev.len() as int) =~= next.skip(next.len() as int));
    lemma_suffix(prev, next, common_prefix(prev, next, 0), 0);
}

/// The one splice that turns `prev` into `next`, with the common front and back
/// left alone.
pub fn semantic_tokens_splice(prev: &Vec<WireToken>, next: &Vec<WireToken>) -> (splice: TokenSplice)
    requires
        prev.len() * 5 <= u32::MAX,
    ensures
        ({
            let (prefix, prev_end, next_end) = splice_bounds(prev@, next@);
            &&& splice.start == prefix * 5
            &&& splice.delete_count == (prev_end - prefix) * 5
            &&& splice.data@ == next@.subrange(prefix, next_end)
        }),
        spliced(prev@, splice.start as int, splice.delete_count as int, splice.data@) == next@,
{
    let mut prefix: usize = 0;
    while prefix < prev.len() && prefix < next.len() && prev[prefix] == next[prefix]
        invariant
            prefix <= prev.len(),
            prefix <= next.len(),
            common_prefix(prev@, next@, 0) == common_prefix(prev@, next@, prefix as int),
        decreases prev.len() - prefix,
    {
        prefix += 1;
    }
    let mut suffix: usize = 0;
    while suffix < prev.len() - prefix && suffix < next.len() - prefix && prev[prev.len() - 1
        - suffix] == next[next.len() - 1 - suffix]
        invariant
            prefix + suffix <= prev.len(),
            prefix + suffix <= next.len(),
            common_suffix(prev@, next@, prefix as int, 0) == common_suffix(
                prev@,
                next@,
                prefix as int,
                suffix as int,
            ),
        decreases prev.len() - suffix,
    {
        suffix += 1;
    }
    proof {
        lemma_bounds(prev@, next@);
    }
    let end: usize = next.len() - suffix;
    let mut data: Vec<WireToken> = Vec::new();
    let mut i: usize = prefix;
    while i < end
        invariant
            prefix <= i <= end <= next.len(),
            data@ == next@.subrange(prefix as int, i as int),
        decreases end - i,
    {
        data.push(next[i]);
        assert(next@.subrange(prefix as int, i + 1) =~= next@.subrange(
            prefix as int,
            i as int,
        ).push(next@[i as int]));
        i += 1;
    }
    assert(next@ =~= next@.take(prefix as int) + data@ + next@.skip(end as int));
    TokenSplice {
        start: (prefix * 5) as u32,
        delete_count: ((prev.len() - suffix - prefix) * 5) as u32,
        data,
    }
}

/// Whether the client holds the result that was sent last: only then can a
/// splice of it be sent.
pub open spec fn holds_result(last: Option<u64>, held: Seq<char>) -> bool {
    last matches Some(id) && decimal(id as nat) == held
}

/// Whether a splice can be sent to a client that says it holds result `held`.
pub fn can_splice(last: Option<u64>, held: &str) -> (yes: bool)
    ensures
        yes == holds_result(last, held@),
{
    match last {
        None => false,
        Some(id) => same(&to_decimal(id as u128), held),
    }
}

} // verus!
