//! The text of an open document as a [`ropey::Rope`], and its lines.
//!
//! Lines end after a line break: LF, VT, FF, CR, CRLF, NEL, LS or PS. CRLF is
//! one break.

use ropey::Rope;
use vstd::prelude::*;
use vstd::string::*;

use crate::text::{blen, byte_at, chars_of};

verus! {

/// [`ropey::Rope`], a text buffer.
#[verifier::external_type_specification]
#[verifier::external_body]
pub struct ExRope(ropey::Rope);

/// The text that a rope holds.
pub uninterp spec fn rope_text(rope: ropey::Rope) -> Seq<char>;

/// Whether a character breaks lines.
pub open spec fn is_break(c: char) -> bool {
    c == '\n' || c == '\u{b}' || c == '\u{c}' || c == '\r' || c == '\u{85}' || c == '\u{2028}' || c
        == '\u{2029}'
}

/// Whether a line begins at character `i`, just past a line break.
pub open spec fn break_before(s: Seq<char>, i: int) -> bool {
    0 < i <= s.len() && is_break(s[i - 1]) && !(s[i - 1] == '\r' && i < s.len() && s[i] == '\n')
}

/// The line of character `i`: the number of line breaks before it.
pub open spec fn line_of(s: Seq<char>, i: int) -> nat
    decreases i,
{
    if i <= 0 {
        0
    } else {
        line_of(s, i - 1) + if break_before(s, i) {
            1nat
        } else {
            0nat
        }
    }
}

/// The number of lines; a text that ends with a break has an empty last line.
pub open spec fn line_count(s: Seq<char>) -> nat {
    line_of(s, s.len() as int) + 1
}

/// The first character from `i` on that is on line `line` or a later one; the
/// end of the text if there is none.
pub open spec fn line_start_from(s: Seq<char>, line: nat, i: int) -> int
    decreases s.len() - i,
{
    if i >= s.len() || line_of(s, i) >= line {
        i
    } else {
        line_start_from(s, line, i + 1)
    }
}

/// Where line `line` starts. Past the last line it is the end of the text.
pub open spec fn line_start(s: Seq<char>, line: nat) -> int {
    if line >= line_count(s) {
        s.len() as int
    } else {
        line_start_from(s, line, 0)
    }
}

/// The text of a line, with its line break.
pub open spec fn line_text(s: Seq<char>, line: nat) -> Seq<char> {
    s.subrange(line_start(s, line), line_start(s, line + 1))
}

/// The character that byte `byte` belongs to, from `i` on: the last one that
/// starts by then.
pub open spec fn char_of_byte(s: Seq<char>, byte: int, i: int) -> int
    decreases s.len() - i,
{
    if i < s.len() && byte_at(s, i + 1) <= byte {
        char_of_byte(s, byte, i + 1)
    } else {
        i
    }
}

/// `Rope::from_str`: a rope that holds `text`.
#[verifier::external_body]
pub(crate) fn rope_from(text: &str) -> (rope: Rope)
    ensures
        rope_text(rope) == text@,
{
    Rope::from_str(text)
}

/// `Rope::clone`: a rope with the same text.
#[verifier::external_body]
pub(crate) fn rope_clone(rope: &Rope) -> (out: Rope)
    ensures
        rope_text(out) == rope_text(*rope),
{
    rope.clone()
}

/// `Rope::to_string`: the text of the rope.
#[verifier::external_body]
pub(crate) fn rope_string(rope: &Rope) -> (out: String)
    ensures
        out@ == rope_text(*rope),
{
    rope.to_string()
}

/// The characters of the rope.
pub fn rope_chars(rope: &Rope) -> (out: Vec<char>)
    ensures
        out@ == rope_text(*rope),
{
    chars_of(&rope_string(rope))
}

/// `Rope::len_bytes`: the length of the text in UTF-8.
#[verifier::external_body]
pub(crate) fn rope_bytes(rope: &Rope) -> (out: usize)
    ensures
        out == blen(rope_text(*rope)),
{
    rope.len_bytes()
}

/// `Rope::len_lines`: one more than the number of line breaks.
#[verifier::external_body]
pub(crate) fn rope_lines(rope: &Rope) -> (out: usize)
    ensures
        out == line_count(rope_text(*rope)),
{
    rope.len_lines()
}

/// `Rope::byte_to_char`: the character that a byte belongs to; one past the end
/// gives one past the last character.
#[verifier::external_body]
pub(crate) fn byte_to_char(rope: &Rope, byte: usize) -> (out: usize)
    requires
        byte <= blen(rope_text(*rope)),
    ensures
        out == char_of_byte(rope_text(*rope), byte as int, 0),
{
    rope.byte_to_char(byte)
}

/// `Rope::char_to_byte`: the byte at which a character starts.
#[verifier::external_body]
pub(crate) fn char_to_byte(rope: &Rope, at: usize) -> (out: usize)
    requires
        at <= rope_text(*rope).len(),
    ensures
        out == byte_at(rope_text(*rope), at as int),
{
    rope.char_to_byte(at)
}

/// `Rope::char_to_line`: the number of line breaks before a character.
#[verifier::external_body]
pub(crate) fn char_to_line(rope: &Rope, at: usize) -> (out: usize)
    requires
        at <= rope_text(*rope).len(),
    ensures
        out == line_of(rope_text(*rope), at as int),
{
    rope.char_to_line(at)
}

/// `Rope::line_to_char`: the character at which a line starts.
#[verifier::external_body]
pub(crate) fn line_to_char(rope: &Rope, line: usize) -> (out: usize)
    requires
        line <= line_count(rope_text(*rope)),
    ensures
        out == line_start(rope_text(*rope), line as nat),
{
    rope.line_to_char(line)
}

/// `Rope::line`: the text of a line, with its line break.
#[verifier::external_body]
pub(crate) fn rope_line(rope: &Rope, line: usize) -> (out: String)
    requires
        line < line_count(rope_text(*rope)),
    ensures
        out@ == line_text(rope_text(*rope), line as nat),
{
    rope.line(line).to_string()
}

/// `Rope::remove`: the text without the characters of a range.
#[verifier::external_body]
pub(crate) fn rope_remove(rope: &mut Rope, start: usize, end: usize)
    requires
        start <= end <= rope_text(*old(rope)).len(),
    ensures
        rope_text(*final(rope)) == rope_text(*old(rope)).take(start as int) + rope_text(
            *old(rope),
        ).skip(end as int),
{
    rope.remove(start..end)
}

/// `Rope::insert`: the text with `text` added before a character.
#[verifier::external_body]
pub(crate) fn rope_insert(rope: &mut Rope, at: usize, text: &str)
    requires
        at <= rope_text(*old(rope)).len(),
    ensures
        rope_text(*final(rope)) == rope_text(*old(rope)).take(at as int) + text@ + rope_text(
            *old(rope),
        ).skip(at as int),
{
    rope.insert(at, text)
}

/// A character's line starts at or before it and the next line after it.
pub proof fn lemma_line_of(s: Seq<char>, i: int)
    requires
        0 <= i <= s.len(),
    ensures
        line_of(s, i) < line_count(s),
        0 <= line_start(s, line_of(s, i)) <= i,
        line_of(s, line_start(s, line_of(s, i))) == line_of(s, i),
        i <= line_start(s, line_of(s, i) + 1) <= s.len(),
{
    lemma_line_monotone(s, i, s.len() as int);
    let line = line_of(s, i);
    lemma_start_found(s, line, 0, i);
    if line + 1 < line_count(s) {
        lemma_start_after(s, line + 1, 0, i);
    }
}

pub proof fn lemma_line_monotone(s: Seq<char>, i: int, j: int)
    requires
        0 <= i <= j,
    ensures
        line_of(s, i) <= line_of(s, j),
    decreases j - i,
{
    if i < j {
        lemma_line_monotone(s, i, j - 1);
    }
}

/// The start of a line is found at or before any character on it.
proof fn lemma_start_found(s: Seq<char>, line: nat, i: int, at: int)
    requires
        0 <= i <= at <= s.len(),
        line_of(s, at) == line,
        i == 0 || line_of(s, i - 1) < line,
    ensures
        i <= line_start_from(s, line, i) <= at,
        line_of(s, line_start_from(s, line, i)) == line,
    decreases at - i,
{
    lemma_line_monotone(s, i, at);
    if line_of(s, i) < line {
        assert(i < at);
        lemma_start_found(s, line, i + 1, at);
    }
}

/// The start of a later line is found after a character.
proof fn lemma_start_after(s: Seq<char>, line: nat, i: int, at: int)
    requires
        0 <= i <= s.len(),
        0 <= at <= s.len(),
        line_of(s, at) < line,
        i <= at || i == at + 1,
    ensures
        at <= line_start_from(s, line, i) <= s.len(),
    decreases s.len() - i,
{
    if i <= at {
        lemma_line_monotone(s, i, at);
        if i < s.len() {
            lemma_start_after(s, line, i + 1, at);
        }
    } else {
        lemma_start_bound(s, line, i);
    }
}

proof fn lemma_start_bound(s: Seq<char>, line: nat, i: int)
    requires
        0 <= i <= s.len(),
    ensures
        i <= line_start_from(s, line, i) <= s.len(),
    decreases s.len() - i,
{
    if i < s.len() && line_of(s, i) < line {
        lemma_start_bound(s, line, i + 1);
    }
}

/// Lines start inside the text, later ones later.
pub proof fn lemma_line_start(s: Seq<char>, a: nat, b: nat)
    requires
        a <= b,
    ensures
        0 <= line_start(s, a) <= line_start(s, b) <= s.len(),
{
    if b < line_count(s) {
        lemma_start_bound(s, a, 0);
        lemma_start_bound(s, b, 0);
        lemma_start_order(s, a, b, 0);
    } else if a < line_count(s) {
        lemma_start_bound(s, a, 0);
    }
}

proof fn lemma_start_order(s: Seq<char>, a: nat, b: nat, i: int)
    requires
        a <= b,
        0 <= i <= s.len(),
    ensures
        line_start_from(s, a, i) <= line_start_from(s, b, i),
    decreases s.len() - i,
{
    if i < s.len() && line_of(s, i) < b {
        if line_of(s, i) < a {
            lemma_start_order(s, a, b, i + 1);
        } else {
            lemma_start_bound(s, b, i + 1);
        }
    }
}

/// A byte at which a character starts belongs to it.
pub proof fn lemma_char_of_boundary(s: Seq<char>, i: int, at: int)
    requires
        0 <= i <= at <= s.len(),
    ensures
        char_of_byte(s, byte_at(s, at), i) == at,
    decreases at - i,
{
    if i < at {
        crate::text::lemma_byte_at_split(s, i + 1, at);
        lemma_char_of_boundary(s, i + 1, at);
    } else if at < s.len() {
        crate::text::lemma_byte_at_step(s, at);
        crate::text::lemma_clen(s[at]);
    }
}

/// The character of a byte lies inside the text and starts by then.
pub proof fn lemma_char_of_byte(s: Seq<char>, byte: int, i: int)
    requires
        0 <= i <= s.len(),
        byte_at(s, i) <= byte,
    ensures
        i <= char_of_byte(s, byte, i) <= s.len(),
        byte_at(s, char_of_byte(s, byte, i)) <= byte,
    decreases s.len() - i,
{
    if i < s.len() && byte_at(s, i + 1) <= byte {
        lemma_char_of_byte(s, byte, i + 1);
    }
}

} // verus!
