//! Text primitives: byte lengths of character sequences, slicing at character
//! boundaries, and the string comparisons the rest of the library is built on.
//!
//! Text is modelled as `Seq<char>`; offsets are byte offsets into its UTF-8
//! encoding, so most lemmas relate a character index to a byte offset.

use vstd::prelude::*;
use vstd::string::*;
use vstd::utf8::*;

verus! {

/// Number of bytes in the UTF-8 encoding of `s`.
pub open spec fn blen(s: Seq<char>) -> nat {
    encode_utf8(s).len()
}

/// Number of bytes in the UTF-8 encoding of `c`.
pub open spec fn clen(c: char) -> nat {
    encode_scalar(c as u32).len()
}

/// `c` with an ASCII uppercase letter mapped to its lowercase equivalent.
pub open spec fn lower_char(c: char) -> char {
    if 'A' <= c && c <= 'Z' {
        ((c as u32) + 32) as char
    } else {
        c
    }
}

/// `c` with an ASCII lowercase letter mapped to its uppercase equivalent.
pub open spec fn upper_char(c: char) -> char {
    if 'a' <= c && c <= 'z' {
        ((c as u32) - 32) as char
    } else {
        c
    }
}

/// `s` with every ASCII letter in lower case.
pub open spec fn lower(s: Seq<char>) -> Seq<char> {
    Seq::new(s.len(), |i: int| lower_char(s[i]))
}

/// `s` with every ASCII letter in upper case.
pub open spec fn upper(s: Seq<char>) -> Seq<char> {
    Seq::new(s.len(), |i: int| upper_char(s[i]))
}

/// Equality up to the case of ASCII letters.
pub open spec fn same_ignoring_case(a: Seq<char>, b: Seq<char>) -> bool {
    lower(a) == lower(b)
}

/// `str::eq_ignore_ascii_case`: two strings match when they are equal after
/// mapping ASCII letters to lower case.
pub assume_specification[ str::eq_ignore_ascii_case ](s: &str, other: &str) -> (r: bool)
    ensures
        r == same_ignoring_case(s@, other@),
;

/// `str::to_ascii_lowercase`: a copy with ASCII letters mapped to lower case.
pub assume_specification[ str::to_ascii_lowercase ](s: &str) -> (out: String)
    ensures
        out@ == lower(s@),
;

/// `String::push`: appends one character.
pub assume_specification[ String::push ](s: &mut String, c: char)
    ensures
        final(s)@ == old(s)@.push(c),
;

/// UTF-8 encoding distributes over concatenation.
pub proof fn lemma_encode_concat(a: Seq<char>, b: Seq<char>)
    ensures
        encode_utf8(a + b) == encode_utf8(a) + encode_utf8(b),
        blen(a + b) == blen(a) + blen(b),
    decreases a.len(),
{
    if a.len() == 0 {
        assert(a + b =~= b);
    } else {
        lemma_encode_concat(a.drop_first(), b);
        assert((a + b).drop_first() =~= a.drop_first() + b);
        assert(encode_utf8(a + b) =~= encode_utf8(a) + encode_utf8(b));
    }
}

/// Every character takes between one and four bytes.
pub proof fn lemma_clen(c: char)
    ensures
        1 <= clen(c) <= 4,
        (c as u32) < 0x80 <==> clen(c) == 1,
        (c as u32) < 0x800 <==> clen(c) <= 2,
        (c as u32) < 0x10000 <==> clen(c) <= 3,
{
    char_is_scalar(c);
}

/// The byte length of one character.
pub proof fn lemma_blen_one(c: char)
    ensures
        blen(seq![c]) == clen(c),
{
    reveal_with_fuel(encode_utf8, 2);
    assert(seq![c].drop_first() =~= Seq::<char>::empty());
    assert(encode_utf8(seq![c]) =~= encode_scalar(c as u32) + Seq::<u8>::empty());
}

/// A text has at least as many bytes as characters.
pub proof fn lemma_blen_bound(s: Seq<char>)
    ensures
        s.len() <= blen(s),
    decreases s.len(),
{
    if s.len() > 0 {
        lemma_clen(s[0]);
        lemma_blen_bound(s.drop_first());
    }
}

/// The byte offset of character `i` in `s`.
pub open spec fn byte_at(s: Seq<char>, i: int) -> int {
    blen(s.take(i)) as int
}

/// Byte offsets of consecutive characters differ by the character's width.
pub proof fn lemma_byte_at_step(s: Seq<char>, i: int)
    requires
        0 <= i < s.len(),
    ensures
        byte_at(s, i + 1) == byte_at(s, i) + clen(s[i]),
{
    assert(s.take(i + 1) =~= s.take(i) + seq![s[i]]);
    lemma_encode_concat(s.take(i), seq![s[i]]);
    lemma_blen_one(s[i]);
}

/// Byte offsets split a text at a character index.
pub proof fn lemma_byte_at_split(s: Seq<char>, i: int, j: int)
    requires
        0 <= i <= j <= s.len(),
    ensures
        byte_at(s, j) == byte_at(s, i) + blen(s.subrange(i, j)),
        byte_at(s, i) <= byte_at(s, j),
        byte_at(s, 0) == 0,
        byte_at(s, s.len() as int) == blen(s),
        i < j ==> byte_at(s, i) < byte_at(s, j),
{
    assert(s.take(j) =~= s.take(i) + s.subrange(i, j));
    lemma_encode_concat(s.take(i), s.subrange(i, j));
    assert(s.take(0) =~= Seq::<char>::empty());
    assert(s.take(s.len() as int) =~= s);
    lemma_blen_bound(s.subrange(i, j));
}

/// The byte offset of a character index is a character boundary, and the two
/// halves of the encoding there are the encodings of the two halves.
pub proof fn lemma_boundary(s: Seq<char>, i: int)
    requires
        0 <= i <= s.len(),
    ensures
        is_char_boundary(encode_utf8(s), byte_at(s, i)),
        encode_utf8(s).subrange(0, byte_at(s, i)) == encode_utf8(s.take(i)),
        encode_utf8(s).subrange(byte_at(s, i), encode_utf8(s).len() as int) == encode_utf8(
            s.skip(i),
        ),
    decreases i,
{
    lemma_encode_concat(s.take(i), s.skip(i));
    assert(s.take(i) + s.skip(i) =~= s);
    assert(encode_utf8(s).subrange(0, byte_at(s, i)) =~= encode_utf8(s.take(i)));
    assert(encode_utf8(s).subrange(byte_at(s, i), encode_utf8(s).len() as int) =~= encode_utf8(
        s.skip(i),
    ));
    encode_utf8_valid_utf8(s);
    if i == 0 {
        assert(s.take(0) =~= Seq::<char>::empty());
        is_char_boundary_start_end_of_seq(encode_utf8(s));
    } else {
        let rest = s.drop_first();
        lemma_boundary(rest, i - 1);
        assert(s.take(i).drop_first() =~= rest.take(i - 1));
        encode_utf8_first_scalar(s);
        assert(pop_first_scalar(encode_utf8(s)) =~= encode_utf8(rest));
        lemma_clen(s[0]);
        assert(byte_at(s, i) == clen(s[0]) + byte_at(rest, i - 1));
    }
}

/// Texts with the same encoding are the same text.
pub proof fn lemma_encode_injective(a: Seq<char>, b: Seq<char>)
    requires
        encode_utf8(a) == encode_utf8(b),
    ensures
        a == b,
{
    encode_utf8_decode_utf8(a);
    encode_utf8_decode_utf8(b);
}

/// The characters of `s`, in order.
pub fn chars_of(s: &str) -> (out: Vec<char>)
    ensures
        out@ == s@,
{
    let mut out: Vec<char> = Vec::new();
    for c in it: s.chars()
        invariant
            out@ == s@.take(it.index()),
            it.seq() == s@,
    {
        out.push(c);
        assert(s@.take(it.index() + 1) =~= s@.take(it.index()).push(s@[it.index()]));
    }
    assert(s@.take(s@.len() as int) =~= s@);
    out
}

/// The byte length of `c` in UTF-8.
pub fn char_width(c: char) -> (width: usize)
    ensures
        width == clen(c),
{
    proof {
        lemma_clen(c);
    }
    let code: u32 = c as u32;
    if code < 0x80 {
        1
    } else if code < 0x800 {
        2
    } else if code < 0x10000 {
        3
    } else {
        4
    }
}

/// The byte offset of every character, and of the end.
pub fn byte_offsets(chars: &Vec<char>) -> (out: Vec<usize>)
    requires
        blen(chars@) <= usize::MAX,
    ensures
        out@.len() == chars@.len() + 1,
        forall|k: int| 0 <= k <= chars@.len() ==> #[trigger] out@[k] == byte_at(chars@, k),
{
    let mut out: Vec<usize> = Vec::new();
    let mut byte: usize = 0;
    let mut i: usize = 0;
    assert(byte_at(chars@, 0) == 0) by {
        assert(chars@.take(0) =~= Seq::<char>::empty());
    }
    out.push(0);
    while i < chars.len()
        invariant
            i <= chars@.len(),
            blen(chars@) <= usize::MAX,
            byte == byte_at(chars@, i as int),
            out@.len() == i + 1,
            forall|k: int| 0 <= k <= i ==> #[trigger] out@[k] == byte_at(chars@, k),
        decreases chars@.len() - i,
    {
        proof {
            lemma_byte_at_step(chars@, i as int);
            lemma_byte_at_split(chars@, i + 1, chars@.len() as int);
            assert(chars@.take(chars@.len() as int) =~= chars@);
        }
        byte = byte + char_width(chars[i]);
        out.push(byte);
        i += 1;
    }
    out
}

/// The part of `s` between two byte offsets that lie on the character indices
/// `i` and `j`.
pub(crate) fn slice<'a>(s: &'a str, start: usize, end: usize, Ghost(i): Ghost<int>, Ghost(j): Ghost<
    int,
>) -> (out: &'a str)
    requires
        0 <= i <= j <= s@.len(),
        start == byte_at(s@, i),
        end == byte_at(s@, j),
    ensures
        out@ == s@.subrange(i, j),
{
    proof {
        lemma_boundary(s@, j);
        lemma_byte_at_split(s@, i, j);
    }
    let (head, _) = s.split_at(end);
    proof {
        lemma_encode_injective(head@, s@.take(j));
        lemma_boundary(head@, i);
        assert(head@.take(i) =~= s@.take(i));
    }
    let (_, out) = head.split_at(start);
    proof {
        lemma_encode_injective(out@, head@.skip(i));
        assert(head@.skip(i) =~= s@.subrange(i, j));
    }
    out
}

/// Exact equality of two strings.
pub fn same(a: &str, b: &str) -> (equal: bool)
    ensures
        equal == (a@ == b@),
{
    let x = a.as_bytes();
    let y = b.as_bytes();
    if x.len() != y.len() {
        return false;
    }
    let mut i: usize = 0;
    while i < x.len()
        invariant
            x@ == encode_utf8(a@),
            y@ == encode_utf8(b@),
            x@.len() == y@.len(),
            i <= x@.len(),
            x@.take(i as int) == y@.take(i as int),
        decreases x@.len() - i,
    {
        if x[i] != y[i] {
            return false;
        }
        proof {
            assert(x@.take(i + 1) =~= x@.take(i as int).push(x@[i as int]));
            assert(y@.take(i + 1) =~= y@.take(i as int).push(y@[i as int]));
        }
        i += 1;
    }
    proof {
        assert(x@.take(i as int) =~= x@);
        assert(y@.take(i as int) =~= y@);
        lemma_encode_injective(a@, b@);
    }
    true
}

proof fn lemma_char_last_byte(c: char)
    ensures
        encode_scalar(c as u32).len() > 0,
        (encode_scalar(c as u32).last() == 10) == (c == '\n'),
{
    char_is_scalar(c);
    let code = c as u32;
    if has_width_1_encoding(code) {
        assert(leading_byte_width_1(code) == code) by (bit_vector)
            requires
                code <= 0x7F,
        ;
        assert(encode_scalar(code).last() == leading_byte_width_1(code));
    } else {
        assert(last_continuation_byte(code) != 10) by (bit_vector);
        assert(encode_scalar(code).last() == last_continuation_byte(code));
    }
}

/// The last byte of a text is `\n` exactly when its last character is.
pub proof fn lemma_last_byte_newline(s: Seq<char>)
    requires
        s.len() > 0,
    ensures
        encode_utf8(s).len() > 0,
        (encode_utf8(s).last() == 10) == (s.last() == '\n'),
{
    let c = s.last();
    assert(s =~= s.drop_last() + seq![c]);
    lemma_encode_concat(s.drop_last(), seq![c]);
    reveal_with_fuel(encode_utf8, 2);
    assert(seq![c].drop_first() =~= Seq::<char>::empty());
    assert(encode_utf8(seq![c]) =~= encode_scalar(c as u32));
    lemma_char_last_byte(c);
    assert(encode_utf8(s).last() == encode_scalar(c as u32).last());
}

/// `s[start..end]` if both offsets lie in `s` on character boundaries.
pub(crate) fn get_range<'a>(s: &'a str, start: usize, end: usize) -> (out: Option<&'a str>)
    ensures
        out is Some == (start <= end <= s.spec_bytes().len() && is_char_boundary(
            s.spec_bytes(),
            start as int,
        ) && is_char_boundary(s.spec_bytes(), end as int)),
        out is Some ==> (out->0).spec_bytes() == s.spec_bytes().subrange(start as int, end as int),
{
    proof {
        encode_utf8_valid_utf8(s@);
        is_char_boundary_start_end_of_seq(s.spec_bytes());
    }
    if start > end || end > s.as_bytes().len() || !s.is_char_boundary(start)
        || !s.is_char_boundary(end) {
        return None;
    }
    let (head, _) = s.split_at(end);
    proof {
        encode_utf8_valid_utf8(head@);
        is_char_boundary_start_end_of_seq(head.spec_bytes());
        if start < end {
            is_char_boundary_iff_not_is_continuation_byte(s.spec_bytes(), start as int);
            is_char_boundary_iff_not_is_continuation_byte(head.spec_bytes(), start as int);
        }
    }
    let (_, out) = head.split_at(start);
    proof {
        assert(out.spec_bytes() =~= s.spec_bytes().subrange(start as int, end as int));
    }
    Some(out)
}

/// 2 texts, one after the other.
pub fn cat2(a: &str, b: &str) -> (out: String)
    ensures
        out@ == a@ + b@,
{
    let mut out = a.to_owned();
    out.append(b);
    out
}

/// 3 texts, one after the other.
pub fn cat3(a: &str, b: &str, c: &str) -> (out: String)
    ensures
        out@ == a@ + b@ + c@,
{
    let mut out = a.to_owned();
    out.append(b);
    out.append(c);
    out
}

/// 4 texts, one after the other.
pub fn cat4(a: &str, b: &str, c: &str, d: &str) -> (out: String)
    ensures
        out@ == a@ + b@ + c@ + d@,
{
    let mut out = a.to_owned();
    out.append(b);
    out.append(c);
    out.append(d);
    out
}

/// 5 texts, one after the other.
pub fn cat5(a: &str, b: &str, c: &str, d: &str, e: &str) -> (out: String)
    ensures
        out@ == a@ + b@ + c@ + d@ + e@,
{
    let mut out = a.to_owned();
    out.append(b);
    out.append(c);
    out.append(d);
    out.append(e);
    out
}

/// 7 texts, one after the other.
pub fn cat7(a: &str, b: &str, c: &str, d: &str, e: &str, f: &str, g: &str) -> (out: String)
    ensures
        out@ == a@ + b@ + c@ + d@ + e@ + f@ + g@,
{
    let mut out = a.to_owned();
    out.append(b);
    out.append(c);
    out.append(d);
    out.append(e);
    out.append(f);
    out.append(g);
    out
}

/// `s` without its first character, which is ASCII.
pub(crate) fn drop_first_char<'a>(s: &'a str) -> (out: &'a str)
    requires
        s@.len() > 0,
        (s@[0] as u32) < 0x80,
    ensures
        out@ == s@.drop_first(),
{
    proof {
        lemma_byte_at_step(s@, 0);
        lemma_byte_at_split(s@, 0, 1);
        lemma_clen(s@[0]);
        lemma_byte_at_split(s@, 1, s@.len() as int);
        assert(s@.subrange(1, s@.len() as int) =~= s@.drop_first());
    }
    let end: usize = s.as_bytes().len();
    slice(s, 1, end, Ghost(1), Ghost(s@.len() as int))
}

/// `s` without its last character, which is ASCII.
pub(crate) fn drop_last_char<'a>(s: &'a str) -> (out: &'a str)
    requires
        s@.len() > 0,
        (s@.last() as u32) < 0x80,
    ensures
        out@ == s@.drop_last(),
{
    let ghost n = s@.len() as int;
    proof {
        lemma_byte_at_step(s@, n - 1);
        lemma_clen(s@[n - 1]);
        lemma_byte_at_split(s@, 0, n - 1);
        lemma_byte_at_split(s@, n - 1, n);
        assert(s@.subrange(0, n - 1) =~= s@.drop_last());
    }
    let end: usize = s.as_bytes().len();
    slice(s, 0, end - 1, Ghost(0), Ghost(n - 1))
}

/// The first character of `s`.
pub(crate) fn first_char(s: &str) -> (out: Option<char>)
    ensures
        match out {
            Some(c) => s@.len() > 0 && c == s@[0],
            None => s@.len() == 0,
        },
{
    if s.is_empty() {
        None
    } else {
        Some(s.get_char(0))
    }
}

/// The last character of `s`.
pub(crate) fn last_char(s: &str) -> (out: Option<char>)
    ensures
        match out {
            Some(c) => s@.len() > 0 && c == s@.last(),
            None => s@.len() == 0,
        },
{
    if s.is_empty() {
        None
    } else {
        let n: usize = s.unicode_len();
        Some(s.get_char(n - 1))
    }
}

/// The texts of a list of strings.
pub open spec fn string_views(s: Seq<String>) -> Seq<Seq<char>> {
    Seq::new(s.len(), |i: int| s[i]@)
}

/// Whether `text` is one of `items`.
pub fn has_text(items: &Vec<String>, text: &str) -> (found: bool)
    ensures
        found == string_views(items@).contains(text@),
{
    let mut i: usize = 0;
    while i < items.len()
        invariant
            i <= items@.len(),
            forall|j: int| 0 <= j < i ==> #[trigger] string_views(items@)[j] != text@,
        decreases items@.len() - i,
    {
        if same(items[i].as_str(), text) {
            assert(string_views(items@)[i as int] == text@);
            return true;
        }
        i += 1;
    }
    false
}

/// White space as Unicode defines it.
pub open spec fn whitespace(c: char) -> bool {
    ||| '\u{9}' <= c && c <= '\u{d}'
    ||| c == ' '
    ||| c == '\u{85}'
    ||| c == '\u{a0}'
    ||| c == '\u{1680}'
    ||| '\u{2000}' <= c && c <= '\u{200a}'
    ||| c == '\u{2028}'
    ||| c == '\u{2029}'
    ||| c == '\u{202f}'
    ||| c == '\u{205f}'
    ||| c == '\u{3000}'
}

/// Whether `c` is white space.
pub fn is_whitespace(c: char) -> (yes: bool)
    ensures
        yes == whitespace(c),
{
    ('\u{9}' <= c && c <= '\u{d}') || c == ' ' || c == '\u{85}' || c == '\u{a0}' || c == '\u{1680}'
        || ('\u{2000}' <= c && c <= '\u{200a}') || c == '\u{2028}' || c == '\u{2029}' || c
        == '\u{202f}' || c == '\u{205f}' || c == '\u{3000}'
}

/// `s` without surrounding double quotes, if it starts with one.
pub open spec fn unquoted(s: Seq<char>) -> Seq<char> {
    if s.len() > 0 && s[0] == '"' {
        let t = s.drop_first();
        if t.len() > 0 && t.last() == '"' {
            t.drop_last()
        } else {
            t
        }
    } else {
        s
    }
}

/// Strip surrounding double quotes from a token's text, if present.
pub fn unquote<'a>(s: &'a str) -> (out: &'a str)
    ensures
        out@ == unquoted(s@),
{
    if let Some('"') = first_char(s) {
        let t = drop_first_char(s);
        if let Some('"') = last_char(t) {
            drop_last_char(t)
        } else {
            t
        }
    } else {
        s
    }
}

/// `s` without leading double quotes.
pub open spec fn without_leading_quotes(s: Seq<char>) -> Seq<char>
    decreases s.len(),
{
    if s.len() > 0 && s[0] == '"' {
        without_leading_quotes(s.drop_first())
    } else {
        s
    }
}

/// `s` without trailing double quotes.
pub open spec fn without_trailing_quotes(s: Seq<char>) -> Seq<char>
    decreases s.len(),
{
    if s.len() > 0 && s.last() == '"' {
        without_trailing_quotes(s.drop_last())
    } else {
        s
    }
}

/// `s` without the double quotes around it.
pub open spec fn quotes_trimmed(s: Seq<char>) -> Seq<char> {
    without_trailing_quotes(without_leading_quotes(s))
}

/// Strip every leading and trailing double quote.
pub fn trim_quotes<'a>(s: &'a str) -> (out: &'a str)
    ensures
        out@ == quotes_trimmed(s@),
{
    let mut head = s;
    loop
        invariant
            without_leading_quotes(s@) == without_leading_quotes(head@),
        ensures
            head@ == without_leading_quotes(s@),
        decreases head@.len(),
    {
        match first_char(head) {
            Some('"') => {
                head = drop_first_char(head);
            },
            _ => {
                break;
            },
        }
    }
    let mut out = head;
    loop
        invariant
            without_trailing_quotes(head@) == without_trailing_quotes(out@),
        ensures
            out@ == without_trailing_quotes(head@),
        decreases out@.len(),
    {
        match last_char(out) {
            Some('"') => {
                out = drop_last_char(out);
            },
            _ => {
                break;
            },
        }
    }
    out
}

/// The position of the first `c` in `s` from `i` on, or the length.
pub open spec fn find_char(s: Seq<char>, c: char, i: int) -> int
    decreases s.len() - i,
{
    if i < 0 || i >= s.len() || s[i] == c {
        i
    } else {
        find_char(s, c, i + 1)
    }
}

/// `str::split_once` on a character: the parts before and after the first `c`.
pub open spec fn split_first(s: Seq<char>, c: char) -> Option<(Seq<char>, Seq<char>)> {
    let i = find_char(s, c, 0);
    if i < s.len() {
        Some((s.take(i), s.skip(i + 1)))
    } else {
        None
    }
}

/// The parts of `s` before and after the first `c`.
pub fn split_once<'a>(s: &'a str, c: char) -> (out: Option<(&'a str, &'a str)>)
    ensures
        match out {
            Some((before, after)) => split_first(s@, c) == Some((before@, after@)),
            None => split_first(s@, c) is None,
        },
{
    let chars = chars_of(s);
    let len = s.as_bytes().len();
    let offsets = byte_offsets(&chars);
    let mut i: usize = 0;
    while i < chars.len() && chars[i] != c
        invariant
            i <= chars@.len(),
            chars@ == s@,
            find_char(s@, c, i as int) == find_char(s@, c, 0),
        decreases chars@.len() - i,
    {
        i += 1;
    }
    if i == chars.len() {
        return None;
    }
    proof {
        assert(byte_at(s@, 0) == 0) by {
            assert(s@.take(0) =~= Seq::<char>::empty());
        }
        assert(s@.take(s@.len() as int) =~= s@);
    }
    let before = slice(s, 0, offsets[i], Ghost(0), Ghost(i as int));
    let after = slice(s, offsets[i + 1], len, Ghost(i + 1), Ghost(s@.len() as int));
    proof {
        assert(s@.subrange(0, i as int) =~= s@.take(i as int));
        assert(s@.subrange(i + 1, s@.len() as int) =~= s@.skip(i + 1));
    }
    Some((before, after))
}

/// `s` without leading `+`, and without leading `-` where `minus` is set.
pub open spec fn unsigned_flag(s: Seq<char>, minus: bool) -> Seq<char>
    decreases s.len(),
{
    if s.len() > 0 && (s[0] == '+' || (minus && s[0] == '-')) {
        unsigned_flag(s.drop_first(), minus)
    } else {
        s
    }
}

/// Strip the leading `+` (and `-` where `minus` is set) modifiers of a flag.
pub fn trim_modifiers<'a>(s: &'a str, minus: bool) -> (out: &'a str)
    ensures
        out@ == unsigned_flag(s@, minus),
{
    let mut out = s;
    loop
        invariant
            unsigned_flag(s@, minus) == unsigned_flag(out@, minus),
        ensures
            out@ == unsigned_flag(s@, minus),
        decreases out@.len(),
    {
        match first_char(out) {
            Some(c) => {
                if c == '+' || (minus && c == '-') {
                    out = drop_first_char(out);
                } else {
                    break;
                }
            },
            None => {
                break;
            },
        }
    }
    out
}

/// A path separator.
pub open spec fn separator(c: char) -> bool {
    c == '/' || c == '\\'
}

/// The part of a path after its last separator.
pub open spec fn last_segment(s: Seq<char>) -> Seq<char>
    decreases s.len(),
{
    if s.len() == 0 || separator(s.last()) {
        Seq::empty()
    } else {
        last_segment(s.drop_last()).push(s.last())
    }
}

/// The trailing path segment (`file` may be a URI).
pub fn short_file<'a>(file: &'a str) -> (out: &'a str)
    ensures
        out@ == last_segment(file@),
{
    let chars = chars_of(file);
    let total: usize = file.as_bytes().len();
    let mut i: usize = 0;
    let mut at: usize = 0;
    let mut start: usize = 0;
    let ghost mut from: int = 0;
    proof {
        assert(file@.take(0) =~= Seq::<char>::empty());
        assert(file@.subrange(0, 0) =~= Seq::<char>::empty());
    }
    while i < chars.len()
        invariant
            chars@ == file@,
            total == blen(file@),
            i <= chars@.len(),
            0 <= from <= i,
            at == byte_at(file@, i as int),
            start == byte_at(file@, from),
            last_segment(file@.take(i as int)) == file@.subrange(from, i as int),
        decreases chars@.len() - i,
    {
        proof {
            lemma_byte_at_step(file@, i as int);
            lemma_byte_at_split(file@, i + 1, file@.len() as int);
            assert(file@.take(i + 1).drop_last() =~= file@.take(i as int));
            assert(file@.take(i + 1).last() == file@[i as int]);
        }
        at += char_width(chars[i]);
        if chars[i] == '/' || chars[i] == '\\' {
            start = at;
            proof {
                from = i + 1;
                assert(file@.subrange(from, i + 1) =~= Seq::<char>::empty());
            }
        } else {
            assert(file@.subrange(from, i + 1) =~= file@.subrange(from, i as int).push(
                file@[i as int],
            ));
        }
        i += 1;
    }
    assert(file@.take(i as int) =~= file@);
    proof {
        lemma_byte_at_split(file@, 0, file@.len() as int);
    }
    slice(file, start, total, Ghost(from), Ghost(file@.len() as int))
}

/// What `format!` writes for a string with `{:?}`.
pub uninterp spec fn quoted_text(s: Seq<char>) -> Seq<char>;

/// `format!` with `{:?}` on a string: the string quoted and escaped. The escaping
/// rules are left to the name.
#[verifier::external_body]
pub(crate) fn quote(s: &str) -> (out: String)
    ensures
        out@ == quoted_text(s@),
{
    format!("{:?}", s)
}

/// Strings quoted, with commas between them.
pub open spec fn quoted_items(names: Seq<Seq<char>>) -> Seq<char>
    decreases names.len(),
{
    if names.len() == 0 {
        Seq::empty()
    } else if names.len() == 1 {
        quoted_text(names[0])
    } else {
        quoted_items(names.drop_last()) + ", "@ + quoted_text(names.last())
    }
}

/// A list of strings as `{:?}` writes it: quoted, with commas, in brackets.
pub open spec fn debug_text(names: Seq<Seq<char>>) -> Seq<char> {
    "["@ + quoted_items(names) + "]"@
}

/// A list of strings as `{:?}` writes it.
pub fn debug_list(names: &Vec<String>) -> (out: String)
    ensures
        out@ == debug_text(string_views(names@)),
{
    let ghost all = string_views(names@);
    let mut items = String::new();
    let mut i: usize = 0;
    assert(all.take(0) =~= Seq::<Seq<char>>::empty());
    assert(items@ =~= quoted_items(all.take(0)));
    while i < names.len()
        invariant
            i <= names.len(),
            all == string_views(names@),
            items@ == quoted_items(all.take(i as int)),
        decreases names.len() - i,
    {
        proof {
            assert(all.take(i + 1).drop_last() =~= all.take(i as int));
            assert(all.take(i + 1).last() == names@[i as int]@);
        }
        if i == 0 {
            items = quote(&names[i]);
            assert(all.take(1)[0] == names@[0]@);
        } else {
            items = cat3(&items, ", ", &quote(&names[i]));
        }
        i += 1;
    }
    assert(all.take(i as int) =~= all);
    cat3("[", &items, "]")
}

} // verus!
