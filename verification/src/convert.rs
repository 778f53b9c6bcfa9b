//! Byte offsets and line/column positions.
//!
//! A position is a line and a column. Columns count what the position encoding
//! counts: bytes, UTF-16 code units or characters. A column past the end of its
//! line means the end of the line, break included; a line past the last one
//! means the last one. A column inside a character means the character's start.

use ropey::Rope;
use vstd::prelude::*;
use vstd::string::*;

use crate::analyzer::Span;
use crate::rope::{
    byte_to_char, char_of_byte, char_to_byte, char_to_line, lemma_char_of_boundary,
    lemma_char_of_byte, lemma_line_monotone, lemma_line_of, lemma_line_start, line_count, line_of,
    line_start, line_text, line_to_char, rope_bytes, rope_from, rope_insert, rope_line, rope_lines,
    rope_remove, rope_text,
};
use crate::text::{
    blen, byte_at, char_width, chars_of, clen, lemma_blen_bound, lemma_blen_one,
    lemma_byte_at_split, lemma_clen, lemma_encode_concat, same,
};

verus! {

/// A zero-based line and column.
#[derive(Debug, Clone, Copy, PartialEq, Eq, Structural)]
pub struct Position {
    pub line: u32,
    pub character: u32,
}

impl Position {
    pub fn new(line: u32, character: u32) -> (pos: Self)
        ensures
            pos == (Position { line, character }),
    {
        Position { line, character }
    }
}

/// A half-open range of positions.
#[derive(Debug, Clone, Copy, PartialEq, Eq, Structural)]
pub struct TextRange {
    pub start: Position,
    pub end: Position,
}

/// What a column counts.
#[derive(Debug, Clone, Copy, PartialEq, Eq, Structural)]
pub enum PositionEnc {
    /// UTF-8 bytes.
    Utf8,
    /// UTF-16 code units.
    Utf16,
    /// Characters (Unicode scalar values).
    Utf32,
}

impl Default for PositionEnc {
    /// UTF-16 holds until something else is negotiated.
    fn default() -> (enc: Self)
        ensures
            enc == PositionEnc::Utf16,
    {
        PositionEnc::Utf16
    }
}

/// Whether the encodings on offer name UTF-8.
pub open spec fn offers_utf8(offered: Seq<String>) -> bool {
    exists|i: int| 0 <= i < offered.len() && (#[trigger] offered[i])@ == "utf-8"@
}

/// The position encoding to use with a client that offers `offered`: UTF-8
/// where it can, UTF-16 otherwise.
pub fn negotiate_encoding(offered: &Vec<String>) -> (enc: PositionEnc)
    ensures
        enc == if offers_utf8(offered@) {
            PositionEnc::Utf8
        } else {
            PositionEnc::Utf16
        },
{
    let mut i: usize = 0;
    while i < offered.len()
        invariant
            i <= offered.len(),
            forall|j: int| 0 <= j < i ==> (#[trigger] offered[j])@ != "utf-8"@,
        decreases offered.len() - i,
    {
        if same(&offered[i], "utf-8") {
            return PositionEnc::Utf8;
        }
        i += 1;
    }
    PositionEnc::Utf16
}

/// How many columns a character takes.
pub open spec fn width(c: char, enc: PositionEnc) -> nat {
    match enc {
        PositionEnc::Utf8 => clen(c),
        PositionEnc::Utf16 => if c as u32 >= 0x10000 {
            2
        } else {
            1
        },
        PositionEnc::Utf32 => 1,
    }
}

/// How many columns a text takes.
pub open spec fn columns(s: Seq<char>, enc: PositionEnc) -> nat
    decreases s.len(),
{
    if s.len() == 0 {
        0
    } else {
        columns(s.drop_last(), enc) + width(s.last(), enc)
    }
}

/// The character of `s` that column `budget`, counted from character `i`, falls
/// on; the length of `s` when it lies past the end.
pub open spec fn fit(s: Seq<char>, budget: int, i: int, enc: PositionEnc) -> int
    decreases s.len() - i,
{
    if 0 <= i < s.len() && width(s[i], enc) <= budget {
        fit(s, budget - width(s[i], enc), i + 1, enc)
    } else {
        i
    }
}

/// The line that a position means: its own, or the last.
pub open spec fn real_line(s: Seq<char>, line: u32) -> nat {
    if line < line_count(s) {
        line as nat
    } else {
        (line_count(s) - 1) as nat
    }
}

/// The character that a position means.
pub open spec fn place(s: Seq<char>, pos: Position, enc: PositionEnc) -> int {
    let line = real_line(s, pos.line);
    line_start(s, line) + fit(line_text(s, line), pos.character as int, 0, enc)
}

/// The byte offset that a position means.
pub open spec fn offset_of(s: Seq<char>, pos: Position, enc: PositionEnc) -> int {
    byte_at(s, place(s, pos, enc))
}

/// The character that a byte offset means: the one it belongs to, or the end of
/// the text.
pub open spec fn char_index(s: Seq<char>, byte: int) -> int {
    char_of_byte(
        s,
        if byte <= blen(s) {
            byte
        } else {
            blen(s) as int
        },
        0,
    )
}

/// The position of a character.
pub open spec fn position_of(s: Seq<char>, at: int, enc: PositionEnc) -> Position {
    Position {
        line: line_of(s, at) as u32,
        character: columns(s.subrange(line_start(s, line_of(s, at)), at), enc) as u32,
    }
}

/// The position of a byte offset.
pub open spec fn locate(s: Seq<char>, byte: int, enc: PositionEnc) -> Position {
    position_of(s, char_index(s, byte), enc)
}

/// The range of a byte span.
pub open spec fn range_of(s: Seq<char>, span: Span, enc: PositionEnc) -> TextRange {
    TextRange {
        start: locate(s, span.start as int, enc),
        end: locate(s, span.end as int, enc),
    }
}

proof fn lemma_width(c: char, enc: PositionEnc)
    ensures
        1 <= width(c, enc) <= clen(c) <= 4,
{
    lemma_clen(c);
}

/// Columns of a concatenation add up.
pub proof fn lemma_columns_concat(a: Seq<char>, b: Seq<char>, enc: PositionEnc)
    ensures
        columns(a + b, enc) == columns(a, enc) + columns(b, enc),
    decreases b.len(),
{
    if b.len() == 0 {
        assert(a + b =~= a);
    } else {
        assert((a + b).drop_last() =~= a + b.drop_last());
        lemma_columns_concat(a, b.drop_last(), enc);
    }
}

/// A text takes no more columns than bytes.
pub proof fn lemma_columns_bound(s: Seq<char>, enc: PositionEnc)
    ensures
        s.len() <= columns(s, enc) <= blen(s),
    decreases s.len(),
{
    if s.len() > 0 {
        lemma_columns_bound(s.drop_last(), enc);
        lemma_width(s.last(), enc);
        assert(s =~= s.drop_last() + seq![s.last()]);
        lemma_encode_concat(s.drop_last(), seq![s.last()]);
        lemma_blen_one(s.last());
    }
}

/// A part of a text takes no more bytes than the text.
proof fn lemma_part(s: Seq<char>, i: int, j: int)
    requires
        0 <= i <= j <= s.len(),
    ensures
        blen(s.subrange(i, j)) <= blen(s),
{
    lemma_byte_at_split(s, i, j);
    lemma_byte_at_split(s, 0, i);
    lemma_byte_at_split(s, j, s.len() as int);
}

proof fn lemma_fit_bound(s: Seq<char>, budget: int, i: int, enc: PositionEnc)
    requires
        0 <= i <= s.len(),
    ensures
        i <= fit(s, budget, i, enc) <= s.len(),
    decreases s.len() - i,
{
    if i < s.len() && width(s[i], enc) <= budget {
        lemma_fit_bound(s, budget - width(s[i], enc), i + 1, enc);
    }
}

/// Walking the columns between two characters leads from one to the other.
proof fn lemma_fit_exact(s: Seq<char>, i: int, k: int, enc: PositionEnc)
    requires
        0 <= i <= k <= s.len(),
    ensures
        fit(s, columns(s.subrange(i, k), enc) as int, i, enc) == k,
    decreases k - i,
{
    if i < k {
        assert(s.subrange(i, k) =~= seq![s[i]] + s.subrange(i + 1, k));
        lemma_columns_concat(seq![s[i]], s.subrange(i + 1, k), enc);
        assert(seq![s[i]].drop_last() =~= Seq::<char>::empty());
        assert(columns(Seq::<char>::empty(), enc) == 0);
        assert(columns(seq![s[i]], enc) == width(s[i], enc));
        lemma_fit_exact(s, i + 1, k, enc);
    } else {
        assert(s.subrange(i, k) =~= Seq::<char>::empty());
        if k < s.len() {
            lemma_width(s[k], enc);
        }
    }
}

proof fn lemma_fit_monotone(s: Seq<char>, a: int, b: int, i: int, enc: PositionEnc)
    requires
        a <= b,
        0 <= i <= s.len(),
    ensures
        fit(s, a, i, enc) <= fit(s, b, i, enc),
    decreases s.len() - i,
{
    if i < s.len() {
        if width(s[i], enc) <= a {
            lemma_fit_monotone(s, a - width(s[i], enc), b - width(s[i], enc), i + 1, enc);
        } else {
            lemma_fit_bound(s, b, i, enc);
        }
    }
}

/// The place that a position means lies inside its line.
pub proof fn lemma_place(s: Seq<char>, pos: Position, enc: PositionEnc)
    ensures
        0 <= line_start(s, real_line(s, pos.line)) <= place(s, pos, enc) <= line_start(
            s,
            real_line(s, pos.line) + 1,
        ) <= s.len(),
{
    let line = real_line(s, pos.line);
    lemma_line_start(s, line, line + 1);
    lemma_fit_bound(line_text(s, line), pos.character as int, 0, enc);
}

/// A byte offset means a character of the text or its end.
pub proof fn lemma_char_index(s: Seq<char>, byte: int)
    requires
        0 <= byte,
    ensures
        0 <= char_index(s, byte) <= s.len(),
{
    lemma_byte_at_split(s, 0, 0);
    lemma_char_of_byte(
        s,
        if byte <= blen(s) {
            byte
        } else {
            blen(s) as int
        },
        0,
    );
}

proof fn lemma_char_of_byte_monotone(s: Seq<char>, a: int, b: int, i: int)
    requires
        a <= b,
        0 <= i <= s.len(),
        byte_at(s, i) <= a,
    ensures
        char_of_byte(s, a, i) <= char_of_byte(s, b, i),
    decreases s.len() - i,
{
    lemma_char_of_byte(s, b, i);
    if i < s.len() && byte_at(s, i + 1) <= a {
        lemma_char_of_byte_monotone(s, a, b, i + 1);
    }
}

/// Later bytes belong to no earlier characters.
pub proof fn lemma_char_index_monotone(s: Seq<char>, a: int, b: int)
    requires
        0 <= a <= b,
    ensures
        char_index(s, a) <= char_index(s, b),
{
    lemma_byte_at_split(s, 0, 0);
    let end = blen(s) as int;
    lemma_char_of_byte_monotone(
        s,
        if a <= end {
            a
        } else {
            end
        },
        if b <= end {
            b
        } else {
            end
        },
        0,
    );
}

proof fn lemma_line_bound(s: Seq<char>, i: int)
    requires
        0 <= i,
    ensures
        line_of(s, i) <= i,
    decreases i,
{
    if i > 0 {
        lemma_line_bound(s, i - 1);
    }
}

/// Positions in a text of at most `u32::MAX` bytes fit their fields.
pub proof fn lemma_position(s: Seq<char>, at: int, enc: PositionEnc)
    requires
        0 <= at <= s.len(),
        blen(s) <= u32::MAX,
    ensures
        line_of(s, at) <= u32::MAX,
        line_of(s, at) < line_count(s),
        0 <= line_start(s, line_of(s, at)) <= at,
        columns(s.subrange(line_start(s, line_of(s, at)), at), enc) <= u32::MAX,
{
    lemma_line_of(s, at);
    lemma_line_bound(s, at);
    lemma_blen_bound(s);
    let start = line_start(s, line_of(s, at));
    lemma_columns_bound(s.subrange(start, at), enc);
    lemma_part(s, start, at);
}

fn column_width(c: char, enc: PositionEnc) -> (out: usize)
    ensures
        out == width(c, enc),
        1 <= out <= 4,
{
    proof {
        lemma_width(c, enc);
    }
    match enc {
        PositionEnc::Utf8 => char_width(c),
        PositionEnc::Utf16 => {
            let code: u32 = c as u32;
            if code >= 0x10000 {
                2
            } else {
                1
            }
        },
        PositionEnc::Utf32 => 1,
    }
}

/// The columns of the characters `from..to`.
pub(crate) fn count_columns(chars: &Vec<char>, from: usize, to: usize, enc: PositionEnc) -> (out: u32)
    requires
        from <= to <= chars.len(),
        blen(chars@) <= u32::MAX,
    ensures
        out == columns(chars@.subrange(from as int, to as int), enc),
{
    let mut out: u32 = 0;
    let mut i: usize = from;
    assert(chars@.subrange(from as int, from as int) =~= Seq::<char>::empty());
    while i < to
        invariant
            from <= i <= to <= chars.len(),
            blen(chars@) <= u32::MAX,
            out == columns(chars@.subrange(from as int, i as int), enc),
        decreases to - i,
    {
        let w = column_width(chars[i], enc);
        proof {
            let next = chars@.subrange(from as int, i + 1);
            assert(next.drop_last() =~= chars@.subrange(from as int, i as int));
            lemma_columns_bound(next, enc);
            lemma_part(chars@, from as int, i + 1);
        }
        out = out + w as u32;
        i += 1;
    }
    out
}

/// The character that column `budget` of a line falls on.
fn fit_column(chars: &Vec<char>, budget: u32, enc: PositionEnc) -> (out: usize)
    ensures
        out == fit(chars@, budget as int, 0, enc),
        out <= chars.len(),
{
    let mut left: usize = budget as usize;
    let mut i: usize = 0;
    while i < chars.len()
        invariant
            i <= chars.len(),
            fit(chars@, budget as int, 0, enc) == fit(chars@, left as int, i as int, enc),
        decreases chars.len() - i,
    {
        let w = column_width(chars[i], enc);
        if w > left {
            return i;
        }
        left = left - w;
        i += 1;
    }
    i
}

/// The character that a byte offset means.
pub(crate) fn index_at(rope: &Rope, byte: u32) -> (out: usize)
    ensures
        out == char_index(rope_text(*rope), byte as int),
        out <= rope_text(*rope).len(),
{
    proof {
        lemma_char_index(rope_text(*rope), byte as int);
    }
    let end = rope_bytes(rope);
    let byte = if byte as usize <= end {
        byte as usize
    } else {
        end
    };
    byte_to_char(rope, byte)
}

/// The position of a byte offset, in the given encoding. An offset past the end
/// means the end.
pub fn position_at(rope: &Rope, byte: u32, enc: PositionEnc) -> (pos: Position)
    requires
        blen(rope_text(*rope)) <= u32::MAX,
    ensures
        pos == locate(rope_text(*rope), byte as int, enc),
{
    let ghost s = rope_text(*rope);
    let at = index_at(rope, byte);
    proof {
        lemma_position(s, at as int, enc);
        lemma_line_of(s, at as int);
    }
    let line = char_to_line(rope, at);
    let start = line_to_char(rope, line);
    let text = chars_of(&rope_line(rope, line));
    proof {
        lemma_line_start(s, line as nat, line as nat + 1);
        lemma_part(s, start as int, line_start(s, line as nat + 1));
        assert(text@.subrange(0, at - start) =~= s.subrange(start as int, at as int));
    }
    Position { line: line as u32, character: count_columns(&text, 0, at - start, enc) }
}

/// The character that a position means, in the given encoding.
fn place_at(rope: &Rope, pos: Position, enc: PositionEnc) -> (out: usize)
    ensures
        out == place(rope_text(*rope), pos, enc),
        out <= rope_text(*rope).len(),
{
    let ghost s = rope_text(*rope);
    proof {
        lemma_place(s, pos, enc);
    }
    let count = rope_lines(rope);
    let line: usize = if (pos.line as usize) < count {
        pos.line as usize
    } else {
        count - 1
    };
    let start = line_to_char(rope, line);
    let text = chars_of(&rope_line(rope, line));
    proof {
        lemma_line_start(s, line as nat, line as nat + 1);
    }
    let len = text.len();
    let fitted = fit_column(&text, pos.character, enc);
    let end = line_to_char(rope, line + 1);
    assert(start + fitted <= end);
    start + fitted
}

/// The byte offset that a position means, in the given encoding.
pub fn offset_at(rope: &Rope, pos: Position, enc: PositionEnc) -> (byte: u32)
    requires
        blen(rope_text(*rope)) <= u32::MAX,
    ensures
        byte == offset_of(rope_text(*rope), pos, enc),
        byte <= blen(rope_text(*rope)),
{
    let at = place_at(rope, pos, enc);
    proof {
        lemma_byte_at_split(rope_text(*rope), at as int, rope_text(*rope).len() as int);
    }
    char_to_byte(rope, at) as u32
}

/// The range of a byte span, in the given encoding.
pub fn range_at(rope: &Rope, span: Span, enc: PositionEnc) -> (range: TextRange)
    requires
        blen(rope_text(*rope)) <= u32::MAX,
    ensures
        range == range_of(rope_text(*rope), span, enc),
{
    TextRange {
        start: position_at(rope, span.start, enc),
        end: position_at(rope, span.end, enc),
    }
}

/// The position of a byte offset, with columns in characters.
pub fn offset_to_position(rope: &Rope, byte: u32) -> (pos: Position)
    requires
        blen(rope_text(*rope)) <= u32::MAX,
    ensures
        pos == locate(rope_text(*rope), byte as int, PositionEnc::Utf32),
{
    position_at(rope, byte, PositionEnc::Utf32)
}

/// The byte offset that a position means, with columns in characters.
pub fn position_to_offset(rope: &Rope, pos: Position) -> (byte: u32)
    requires
        blen(rope_text(*rope)) <= u32::MAX,
    ensures
        byte == offset_of(rope_text(*rope), pos, PositionEnc::Utf32),
        byte <= blen(rope_text(*rope)),
{
    offset_at(rope, pos, PositionEnc::Utf32)
}

/// The range of a byte span, with columns in characters.
pub fn span_to_range(rope: &Rope, span: Span) -> (range: TextRange)
    requires
        blen(rope_text(*rope)) <= u32::MAX,
    ensures
        range == range_of(rope_text(*rope), span, PositionEnc::Utf32),
{
    range_at(rope, span, PositionEnc::Utf32)
}

/// The line of the last character of a span, which may be the end of that line.
pub open spec fn last_line(s: Seq<char>, span: Span, enc: PositionEnc) -> u32 {
    locate(
        s,
        if span.start < span.end {
            span.end - 1
        } else {
            span.end as int
        },
        enc,
    ).line
}

/// The lines that a folded span collapses, from its first to that of its last
/// character: none unless that is a later line.
pub open spec fn folded_lines(s: Seq<char>, span: Span, enc: PositionEnc) -> Option<(u32, u32)> {
    let first = locate(s, span.start as int, enc).line;
    if last_line(s, span, enc) > first {
        Some((first, last_line(s, span, enc)))
    } else {
        None
    }
}

/// The first and last line of a foldable span.
pub fn fold_lines(rope: &Rope, span: Span, enc: PositionEnc) -> (out: Option<(u32, u32)>)
    requires
        blen(rope_text(*rope)) <= u32::MAX,
    ensures
        out == folded_lines(rope_text(*rope), span, enc),
{
    let first = position_at(rope, span.start, enc).line;
    let end: u32 = if span.start < span.end {
        span.end - 1
    } else {
        span.end
    };
    let last = position_at(rope, end, enc).line;
    if last > first {
        Some((first, last))
    } else {
        None
    }
}

/// A text after a change: the characters of the range replaced, or everything.
pub open spec fn changed(
    s: Seq<char>,
    range: Option<TextRange>,
    text: Seq<char>,
    enc: PositionEnc,
) -> Seq<char> {
    match range {
        None => text,
        Some(range) => s.take(place(s, range.start, enc)) + text + s.skip(
            place(s, range.end, enc),
        ),
    }
}

/// Whether a change's range runs forward.
pub open spec fn forward(s: Seq<char>, range: Option<TextRange>, enc: PositionEnc) -> bool {
    range matches Some(range) ==> place(s, range.start, enc) <= place(s, range.end, enc)
}

/// Whether a change's range runs forward.
pub fn is_forward(rope: &Rope, range: Option<TextRange>, enc: PositionEnc) -> (yes: bool)
    ensures
        yes == forward(rope_text(*rope), range, enc),
{
    match range {
        None => true,
        Some(range) => place_at(rope, range.start, enc) <= place_at(rope, range.end, enc),
    }
}

/// Apply a change to the text of a rope.
pub fn apply_change(rope: &mut Rope, range: Option<TextRange>, text: &str, enc: PositionEnc)
    requires
        forward(rope_text(*old(rope)), range, enc),
    ensures
        rope_text(*final(rope)) == changed(rope_text(*old(rope)), range, text@, enc),
{
    match range {
        None => {
            *rope = rope_from(text);
        },
        Some(range) => {
            let ghost s = rope_text(*rope);
            let start = place_at(rope, range.start, enc);
            let end = place_at(rope, range.end, enc);
            rope_remove(rope, start, end);
            let ghost cut = rope_text(*rope);
            assert(cut.take(start as int) =~= s.take(start as int));
            assert(cut.skip(start as int) =~= s.skip(end as int));
            rope_insert(rope, start, text);
        },
    }
}

// ---------------------------------------------------------------------------
// Laws of positions
// ---------------------------------------------------------------------------
/// Law: a character's position leads back to the byte offset at which the
/// character starts, in every encoding.
pub proof fn position_round_trip(s: Seq<char>, at: int, enc: PositionEnc)
    requires
        0 <= at <= s.len(),
        blen(s) <= u32::MAX,
    ensures
        offset_of(s, locate(s, byte_at(s, at), enc), enc) == byte_at(s, at),
{
    lemma_byte_at_split(s, at, s.len() as int);
    lemma_byte_at_split(s, 0, at);
    lemma_char_of_boundary(s, 0, at);
    lemma_position(s, at, enc);
    lemma_line_of(s, at);
    let line = line_of(s, at);
    let start = line_start(s, line);
    let text = line_text(s, line);
    lemma_line_start(s, line, line + 1);
    assert(text.subrange(0, at - start) =~= s.subrange(start, at));
    lemma_fit_exact(text, 0, at - start, enc);
}

/// The order of positions: by line, then by column.
pub open spec fn not_after(a: Position, b: Position) -> bool {
    a.line < b.line || (a.line == b.line && a.character <= b.character)
}

/// Law: of two positions the later one, if its line exists, means no earlier
/// byte offset.
pub proof fn offsets_keep_order(s: Seq<char>, a: Position, b: Position, enc: PositionEnc)
    requires
        not_after(a, b),
        b.line < line_count(s),
    ensures
        place(s, a, enc) <= place(s, b, enc),
        offset_of(s, a, enc) <= offset_of(s, b, enc),
{
    lemma_place(s, a, enc);
    lemma_place(s, b, enc);
    if a.line < b.line {
        lemma_line_start(s, a.line as nat + 1, b.line as nat);
    } else {
        lemma_line_start(s, a.line as nat, a.line as nat + 1);
        lemma_fit_monotone(
            line_text(s, a.line as nat),
            a.character as int,
            b.character as int,
            0,
            enc,
        );
    }
    lemma_byte_at_split(s, place(s, a, enc), place(s, b, enc));
}

/// Law: of two byte offsets the later one has no earlier position.
pub proof fn positions_keep_order(s: Seq<char>, a: int, b: int, enc: PositionEnc)
    requires
        0 <= a <= b,
        blen(s) <= u32::MAX,
    ensures
        not_after(locate(s, a, enc), locate(s, b, enc)),
{
    lemma_char_index(s, a);
    lemma_char_index(s, b);
    lemma_char_index_monotone(s, a, b);
    let i = char_index(s, a);
    let j = char_index(s, b);
    lemma_position(s, i, enc);
    lemma_position(s, j, enc);
    lemma_line_monotone(s, i, j);
    if line_of(s, i) == line_of(s, j) {
        let start = line_start(s, line_of(s, i));
        assert(s.subrange(start, j) =~= s.subrange(start, i) + s.subrange(i, j));
        lemma_columns_concat(s.subrange(start, i), s.subrange(i, j), enc);
    }
}

/// Law: a change keeps what stands before its range and what stands behind it,
/// and puts its text in between.
pub proof fn change_replaces_range(
    s: Seq<char>,
    range: TextRange,
    text: Seq<char>,
    enc: PositionEnc,
)
    requires
        forward(s, Some(range), enc),
    ensures
        ({
            let next = changed(s, Some(range), text, enc);
            let a = place(s, range.start, enc);
            let b = place(s, range.end, enc);
            &&& next.len() == s.len() - (b - a) + text.len()
            &&& next.take(a) == s.take(a)
            &&& next.subrange(a, a + text.len()) == text
            &&& next.skip(a + text.len()) == s.skip(b)
        }),
{
    lemma_place(s, range.start, enc);
    lemma_place(s, range.end, enc);
    let next = changed(s, Some(range), text, enc);
    let a = place(s, range.start, enc);
    assert(next.take(a) =~= s.take(a));
    assert(next.subrange(a, a + text.len()) =~= text);
    assert(next.skip(a + text.len()) =~= s.skip(place(s, range.end, enc)));
}

} // verus!
