//! Names of files: segments, stems and extensions, and text read from bytes.

use vstd::prelude::*;
use vstd::string::*;
use vstd::utf8::*;

use crate::text::{
    chars_of, is_whitespace, last_segment, separator, short_file, whitespace,
};

verus! {

/// What `String::from_utf8_lossy` makes of bytes.
pub uninterp spec fn lossy_text(bytes: Seq<u8>) -> Seq<char>;

/// `String::from_utf8_lossy`: the text of the bytes, with replacement characters
/// for what is not UTF-8. Where they stand is left to the name; valid UTF-8 is
/// decoded as it is.
#[verifier::external_body]
pub(crate) fn from_utf8_lossy(bytes: &[u8]) -> (out: String)
    ensures
        out@ == lossy_text(bytes@),
        valid_utf8(bytes@) ==> encode_utf8(out@) == bytes@,
{
    String::from_utf8_lossy(bytes).into_owned()
}

/// `std::str::from_utf8`: the text of the bytes if they are UTF-8.
#[verifier::external_body]
pub(crate) fn from_utf8(bytes: &[u8]) -> (out: Option<String>)
    ensures
        match out {
            Some(text) => valid_utf8(bytes@) && encode_utf8(text@) == bytes@,
            None => !valid_utf8(bytes@),
        },
{
    std::str::from_utf8(bytes).ok().map(|text| text.to_string())
}

/// The characters `from..to` as a string.
pub fn string_from(chars: &Vec<char>, from: usize, to: usize) -> (out: String)
    requires
        from <= to <= chars.len(),
    ensures
        out@ == chars@.subrange(from as int, to as int),
{
    let mut out = String::new();
    let mut i: usize = from;
    assert(chars@.subrange(from as int, from as int) =~= Seq::<char>::empty());
    while i < to
        invariant
            from <= i <= to <= chars.len(),
            out@ == chars@.subrange(from as int, i as int),
        decreases to - i,
    {
        out.push(chars[i]);
        assert(chars@.subrange(from as int, i + 1) =~= chars@.subrange(from as int, i as int).push(
            chars@[i as int],
        ));
        i += 1;
    }
    out
}

/// `s` without leading white space.
pub open spec fn trimmed_start(s: Seq<char>) -> Seq<char>
    decreases s.len(),
{
    if s.len() > 0 && whitespace(s[0]) {
        trimmed_start(s.drop_first())
    } else {
        s
    }
}

/// `s` without trailing white space.
pub open spec fn trimmed_end(s: Seq<char>) -> Seq<char>
    decreases s.len(),
{
    if s.len() > 0 && whitespace(s.last()) {
        trimmed_end(s.drop_last())
    } else {
        s
    }
}

/// `s` without the white space around it.
pub open spec fn trimmed(s: Seq<char>) -> Seq<char> {
    trimmed_end(trimmed_start(s))
}

/// Strip the white space around the characters `from..to`.
pub(crate) fn trim_chars(chars: &Vec<char>, from: usize, to: usize) -> (out: String)
    requires
        from <= to <= chars.len(),
    ensures
        out@ == trimmed(chars@.subrange(from as int, to as int)),
{
    let ghost s = chars@.subrange(from as int, to as int);
    let mut start: usize = from;
    while start < to && is_whitespace(chars[start])
        invariant
            from <= start <= to <= chars.len(),
            s == chars@.subrange(from as int, to as int),
            trimmed_start(s) == trimmed_start(chars@.subrange(start as int, to as int)),
        decreases to - start,
    {
        assert(chars@.subrange(start as int, to as int).drop_first() =~= chars@.subrange(
            start + 1,
            to as int,
        ));
        start += 1;
    }
    let ghost rest = chars@.subrange(start as int, to as int);
    let mut end: usize = to;
    while end > start && is_whitespace(chars[end - 1])
        invariant
            start <= end <= to <= chars.len(),
            rest == chars@.subrange(start as int, to as int),
            trimmed_end(rest) == trimmed_end(chars@.subrange(start as int, end as int)),
        decreases end - start,
    {
        assert(chars@.subrange(start as int, end as int).drop_last() =~= chars@.subrange(
            start as int,
            end - 1,
        ));
        end -= 1;
    }
    string_from(chars, start, end)
}

/// Strip the white space around a text.
pub fn trim(s: &str) -> (out: String)
    ensures
        out@ == trimmed(s@),
{
    let chars = chars_of(s);
    assert(chars@.subrange(0, chars@.len() as int) =~= s@);
    let len = chars.len();
    trim_chars(&chars, 0, len)
}

/// Whether a text holds nothing but white space.
pub fn is_blank_text(s: &str) -> (yes: bool)
    ensures
        yes == (trimmed(s@).len() == 0),
{
    trim(s).as_str().is_empty()
}

/// Where the last `c` of `s` stands; `-1` if there is none.
pub open spec fn last_index(s: Seq<char>, c: char) -> int
    decreases s.len(),
{
    if s.len() == 0 {
        -1
    } else if s.last() == c {
        s.len() - 1
    } else {
        last_index(s.drop_last(), c)
    }
}

/// `str::rsplit_once` on a character: the parts before and after the last `c`.
pub open spec fn split_last(s: Seq<char>, c: char) -> Option<(Seq<char>, Seq<char>)> {
    let i = last_index(s, c);
    if i >= 0 {
        Some((s.take(i), s.skip(i + 1)))
    } else {
        None
    }
}

proof fn lemma_last_index(s: Seq<char>, c: char)
    ensures
        -1 <= last_index(s, c) < s.len(),
        last_index(s, c) >= 0 ==> s[last_index(s, c)] == c,
    decreases s.len(),
{
    if s.len() > 0 && s.last() != c {
        lemma_last_index(s.drop_last(), c);
    }
}

/// The parts of `s` before and after the last `c`.
pub fn rsplit_once(s: &str, c: char) -> (out: Option<(String, String)>)
    ensures
        match out {
            Some((before, after)) => split_last(s@, c) == Some((before@, after@)),
            None => split_last(s@, c) is None,
        },
{
    let chars = chars_of(s);
    let len = chars.len();
    let mut i: usize = len;
    assert(s@.take(len as int) =~= s@);
    while i > 0
        invariant
            i <= len,
            len == chars.len(),
            chars@ == s@,
            last_index(s@, c) == last_index(s@.take(i as int), c),
        decreases i,
    {
        assert(s@.take(i as int).drop_last() =~= s@.take(i - 1));
        if chars[i - 1] == c {
            let before = string_from(&chars, 0, i - 1);
            let after = string_from(&chars, i, len);
            assert(before@ =~= s@.take(i - 1));
            assert(after@ =~= s@.skip(i as int));
            return Some((before, after));
        }
        i -= 1;
    }
    None
}

/// The name of a file without its directories and its last extension.
pub open spec fn stem_of(path: Seq<char>) -> Seq<char> {
    match split_last(last_segment(path), '.') {
        Some((stem, _)) => stem,
        None => last_segment(path),
    }
}

/// The name of a file without its directories and its last extension.
pub fn file_stem_str(path: &str) -> (out: String)
    ensures
        out@ == stem_of(path@),
{
    let name = short_file(path);
    match rsplit_once(name, '.') {
        Some((stem, _)) => stem,
        None => name.to_string(),
    }
}

/// A path without the separators and the segments `.` at its end.
pub open spec fn without_end(path: Seq<char>) -> Seq<char>
    decreases path.len(),
{
    let len = path.len();
    if len > 0 && (separator(path[len - 1]) || (len > 1 && path[len - 1] == '.' && separator(
        path[len - 2],
    ))) {
        without_end(path.drop_last())
    } else {
        path
    }
}

/// The extension of the file that a path names. A name that only starts with a dot
/// has none.
pub open spec fn extension_of(path: Seq<char>) -> Seq<char> {
    match split_last(last_segment(without_end(path)), '.') {
        Some((stem, extension)) => if stem.len() > 0 {
            extension
        } else {
            Seq::empty()
        },
        None => Seq::empty(),
    }
}

/// A path without the separators and the segments `.` at its end.
fn trim_end(path: &str) -> (out: String)
    ensures
        out@ == without_end(path@),
{
    let chars = chars_of(path);
    let mut len: usize = chars.len();
    assert(path@.take(len as int) =~= path@);
    while len > 0 && (is_separator(chars[len - 1]) || (len > 1 && chars[len - 1] == '.'
        && is_separator(chars[len - 2])))
        invariant
            len <= chars.len(),
            chars@ == path@,
            without_end(path@) == without_end(path@.take(len as int)),
        decreases len,
    {
        assert(path@.take(len as int).drop_last() =~= path@.take(len - 1));
        len -= 1;
    }
    let out = string_from(&chars, 0, len);
    assert(out@ =~= path@.take(len as int));
    out
}

fn is_separator(c: char) -> (yes: bool)
    ensures
        yes == separator(c),
{
    c == '/' || c == '\\'
}

/// The extension of the file that a path names.
pub fn extension(path: &str) -> (out: String)
    ensures
        out@ == extension_of(path@),
{
    let named = trim_end(path);
    match rsplit_once(short_file(&named), '.') {
        Some((stem, extension)) => {
            if stem.as_str().is_empty() {
                let out = String::new();
                assert(out@ =~= Seq::<char>::empty());
                out
            } else {
                extension
            }
        },
        None => {
            let out = String::new();
            assert(out@ =~= Seq::<char>::empty());
            out
        },
    }
}

/// A path with `/` for every `\`.
pub open spec fn slashed(s: Seq<char>) -> Seq<char> {
    s.map_values(
        |c: char|
            if c == '\\' {
                '/'
            } else {
                c
            },
    )
}

/// A path with `/` for every `\`.
pub fn to_slashes(s: &str) -> (out: String)
    ensures
        out@ == slashed(s@),
{
    let chars = chars_of(s);
    let mut out = String::new();
    let mut i: usize = 0;
    while i < chars.len()
        invariant
            i <= chars.len(),
            chars@ == s@,
            out@ == slashed(s@).take(i as int),
        decreases chars.len() - i,
    {
        if chars[i] == '\\' {
            out.push('/');
        } else {
            out.push(chars[i]);
        }
        assert(slashed(s@).take(i + 1) =~= slashed(s@).take(i as int).push(slashed(s@)[i as int]));
        i += 1;
    }
    assert(slashed(s@).take(i as int) =~= slashed(s@));
    out
}

/// Law: a name of two parts joined by a dot, the second without one, splits back
/// into them.
pub proof fn stem_and_extension_rejoin(stem: Seq<char>, extension: Seq<char>)
    requires
        !extension.contains('.'),
    ensures
        split_last(stem + seq!['.'] + extension, '.') == Some((stem, extension)),
    decreases extension.len(),
{
    let s = stem + seq!['.'] + extension;
    lemma_last_dot(stem, extension);
    assert(s.take(stem.len() as int) =~= stem);
    assert(s.skip(stem.len() as int + 1) =~= extension);
}

proof fn lemma_last_dot(stem: Seq<char>, extension: Seq<char>)
    requires
        !extension.contains('.'),
    ensures
        last_index(stem + seq!['.'] + extension, '.') == stem.len(),
    decreases extension.len(),
{
    let s = stem + seq!['.'] + extension;
    if extension.len() > 0 {
        assert(s.last() == extension.last());
        assert(extension.contains(extension.last()));
        assert(s.drop_last() =~= stem + seq!['.'] + extension.drop_last());
        assert(!extension.drop_last().contains('.')) by {
            if extension.drop_last().contains('.') {
                let k = choose|k: int|
                    0 <= k < extension.drop_last().len() && extension.drop_last()[k] == '.';
                assert(extension[k] == '.');
            }
        }
        lemma_last_dot(stem, extension.drop_last());
    }
}

} // verus!
