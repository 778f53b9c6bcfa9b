//! The directory of a BIG archive.
//!
//! An archive starts with `BIGF`, its size, the number of its entries and a
//! fourth number; then come the entries: where the content lies, its length,
//! both big-endian, and the name, ended by a zero.

use vstd::prelude::*;
use vstd::slice::slice_subrange;
use vstd::string::*;

use crate::names::{from_utf8_lossy, lossy_text, slashed, to_slashes};
use crate::text::same_ignoring_case;

verus! {

/// An entry of an archive.
#[derive(Debug)]
pub struct BigEntry {
    pub name: String,
    pub offset: u64,
    pub size: usize,
}

#[verifier::ext_equal]
pub struct BigEntryView {
    pub name: Seq<char>,
    pub offset: int,
    pub size: int,
}

impl View for BigEntry {
    type V = BigEntryView;

    open spec fn view(&self) -> BigEntryView {
        BigEntryView { name: self.name@, offset: self.offset as int, size: self.size as int }
    }
}

pub open spec fn entry_views(s: Seq<BigEntry>) -> Seq<BigEntryView> {
    Seq::new(s.len(), |i: int| s[i]@)
}

/// Why there is no directory.
#[derive(Debug, Clone, Copy, PartialEq, Eq, Structural)]
pub enum BigError {
    /// The bytes end before the directory does.
    Truncated,
    /// The bytes do not start with `BIGF`.
    NotBig,
}

/// Four bytes as a big-endian number.
pub open spec fn be32(bytes: Seq<u8>, pos: int) -> int {
    bytes[pos] * 0x100_0000 + bytes[pos + 1] * 0x1_0000 + bytes[pos + 2] * 0x100 + bytes[pos + 3]
}

/// Where the first zero from `pos` on stands, or the number of bytes.
pub open spec fn zero_from(bytes: Seq<u8>, pos: int) -> int
    decreases bytes.len() - pos,
{
    if pos >= bytes.len() || bytes[pos] == 0 {
        pos
    } else {
        zero_from(bytes, pos + 1)
    }
}

/// The entry at `pos` and where the next one starts.
pub open spec fn entry_at(bytes: Seq<u8>, pos: int) -> Option<(BigEntryView, int)> {
    let end = zero_from(bytes, pos + 8);
    if pos + 8 > bytes.len() || end >= bytes.len() {
        None
    } else {
        Some(
            (
                BigEntryView {
                    name: slashed(lossy_text(bytes.subrange(pos + 8, end))),
                    offset: be32(bytes, pos),
                    size: be32(bytes, pos + 4),
                },
                end + 1,
            ),
        )
    }
}

/// `n` entries from `pos` on, behind those in `known`.
pub open spec fn entries_from(bytes: Seq<u8>, pos: int, n: nat, known: Seq<BigEntryView>) -> Result<
    Seq<BigEntryView>,
    BigError,
>
    decreases n,
{
    if n == 0 {
        Ok(known)
    } else {
        match entry_at(bytes, pos) {
            None => Err(BigError::Truncated),
            Some((entry, next)) => entries_from(bytes, next, (n - 1) as nat, known.push(entry)),
        }
    }
}

/// Whether bytes start with `BIGF`.
pub open spec fn has_magic(bytes: Seq<u8>) -> bool {
    bytes.len() >= 4 && bytes[0] == 0x42 && bytes[1] == 0x49 && bytes[2] == 0x47 && bytes[3] == 0x46
}

/// The directory of an archive.
pub open spec fn directory(bytes: Seq<u8>) -> Result<Seq<BigEntryView>, BigError> {
    if bytes.len() < 4 {
        Err(BigError::Truncated)
    } else if !has_magic(bytes) {
        Err(BigError::NotBig)
    } else if bytes.len() < 12 {
        Err(BigError::Truncated)
    } else {
        entries_from(bytes, 16, be32(bytes, 8) as nat, Seq::empty())
    }
}

fn read_u32_be(bytes: &[u8], pos: usize) -> (out: u32)
    requires
        pos + 4 <= bytes.len(),
    ensures
        out == be32(bytes@, pos as int),
{
    bytes[pos] as u32 * 0x100_0000 + bytes[pos + 1] as u32 * 0x1_0000 + bytes[pos + 2] as u32 * 0x100
        + bytes[pos + 3] as u32
}

fn find_zero(bytes: &[u8], pos: usize) -> (at: usize)
    requires
        pos <= bytes.len(),
    ensures
        at == zero_from(bytes@, pos as int),
        pos <= at <= bytes.len(),
{
    let mut at = pos;
    while at < bytes.len() && bytes[at] != 0
        invariant
            pos <= at <= bytes.len(),
            zero_from(bytes@, pos as int) == zero_from(bytes@, at as int),
        decreases bytes.len() - at,
    {
        at += 1;
    }
    at
}

/// The directory of an archive, from the bytes of the archive or of its front.
pub fn big_entries(bytes: &[u8]) -> (out: Result<Vec<BigEntry>, BigError>)
    ensures
        match out {
            Ok(entries) => directory(bytes@) == Ok::<Seq<BigEntryView>, BigError>(
                entry_views(entries@),
            ),
            Err(error) => directory(bytes@) == Err::<Seq<BigEntryView>, BigError>(error),
        },
{
    if bytes.len() < 4 {
        return Err(BigError::Truncated);
    }
    if !(bytes[0] == 0x42 && bytes[1] == 0x49 && bytes[2] == 0x47 && bytes[3] == 0x46) {
        return Err(BigError::NotBig);
    }
    if bytes.len() < 12 {
        return Err(BigError::Truncated);
    }
    let count = read_u32_be(bytes, 8);
    let mut out: Vec<BigEntry> = Vec::new();
    let mut pos: usize = 16;
    let mut left: u32 = count;
    assert(entry_views(out@) =~= Seq::<BigEntryView>::empty());
    while left > 0
        invariant
            directory(bytes@) == entries_from(
                bytes@,
                pos as int,
                left as nat,
                entry_views(out@),
            ),
        decreases left,
    {
        if bytes.len() < 8 || pos > bytes.len() - 8 {
            return Err(BigError::Truncated);
        }
        let end = find_zero(bytes, pos + 8);
        if end >= bytes.len() {
            return Err(BigError::Truncated);
        }
        let ghost before = entry_views(out@);
        let offset = read_u32_be(bytes, pos) as u64;
        let size = read_u32_be(bytes, pos + 4) as usize;
        let name = to_slashes(&from_utf8_lossy(slice_subrange(bytes, pos + 8, end)));
        let entry = BigEntry { name, offset, size };
        let ghost view = entry@;
        out.push(entry);
        assert(entry_views(out@) =~= before.push(view));
        pos = end + 1;
        left -= 1;
    }
    Ok(out)
}

/// Whether an entry's content lies inside an archive of `len` bytes.
pub open spec fn content_fits(entry: BigEntryView, len: int) -> bool {
    entry.offset + entry.size <= len
}

/// The content of an entry, if the archive holds all of it.
pub fn entry_content<'a>(bytes: &'a [u8], entry: &BigEntry) -> (out: Option<&'a [u8]>)
    ensures
        match out {
            Some(content) => content_fits(entry@, bytes@.len() as int) && content@
                == bytes@.subrange(entry.offset as int, entry.offset + entry.size),
            None => !content_fits(entry@, bytes@.len() as int),
        },
{
    let len = bytes.len() as u64;
    if entry.offset > len || entry.size as u64 > len - entry.offset {
        return None;
    }
    let start = entry.offset as usize;
    Some(slice_subrange(bytes, start, start + entry.size))
}

/// The first entry of a name in whatever case, from `i` on.
pub open spec fn entry_position(entries: Seq<BigEntryView>, name: Seq<char>, i: int) -> int
    decreases entries.len() - i,
{
    if i < 0 || i >= entries.len() || same_ignoring_case(entries[i].name, name) {
        i
    } else {
        entry_position(entries, name, i + 1)
    }
}

/// The first entry of a name in whatever case.
pub fn find_entry<'a>(entries: &'a Vec<BigEntry>, name: &str) -> (out: Option<&'a BigEntry>)
    ensures
        ({
            let i = entry_position(entry_views(entries@), name@, 0);
            match out {
                Some(entry) => 0 <= i < entries.len() && *entry == entries[i],
                None => i == entries.len(),
            }
        }),
{
    let ghost all = entry_views(entries@);
    let mut i: usize = 0;
    while i < entries.len()
        invariant
            i <= entries.len(),
            all == entry_views(entries@),
            entry_position(all, name@, 0) == entry_position(all, name@, i as int),
        decreases entries.len() - i,
    {
        assert(all[i as int] == entries@[i as int]@);
        if entries[i].name.as_str().eq_ignore_ascii_case(name) {
            return Some(&entries[i]);
        }
        i += 1;
    }
    None
}

// ---------------------------------------------------------------------------
// Laws
// ---------------------------------------------------------------------------
proof fn lemma_zero_prefix(bytes: Seq<u8>, more: Seq<u8>, pos: int)
    requires
        0 <= pos,
        zero_from(bytes, pos) < bytes.len(),
    ensures
        zero_from(bytes + more, pos) == zero_from(bytes, pos),
        pos <= zero_from(bytes, pos),
    decreases bytes.len() - pos,
{
    if pos < bytes.len() && bytes[pos] != 0 {
        lemma_zero_prefix(bytes, more, pos + 1);
    }
}

proof fn lemma_entries_prefix(
    bytes: Seq<u8>,
    more: Seq<u8>,
    pos: int,
    n: nat,
    known: Seq<BigEntryView>,
)
    requires
        0 <= pos,
        entries_from(bytes, pos, n, known) is Ok,
    ensures
        entries_from(bytes + more, pos, n, known) == entries_from(bytes, pos, n, known),
    decreases n,
{
    if n > 0 {
        let end = zero_from(bytes, pos + 8);
        lemma_zero_prefix(bytes, more, pos + 8);
        assert((bytes + more).subrange(pos + 8, end) =~= bytes.subrange(pos + 8, end));
        assert(entry_at(bytes + more, pos) == entry_at(bytes, pos));
        let (entry, next) = entry_at(bytes, pos)->0;
        lemma_entries_prefix(bytes, more, next, (n - 1) as nat, known.push(entry));
    }
}

/// Law: once the front of an archive gives its directory, more bytes change
/// nothing.
pub proof fn directory_needs_only_the_front(bytes: Seq<u8>, more: Seq<u8>)
    requires
        directory(bytes) is Ok,
    ensures
        directory(bytes + more) == directory(bytes),
{
    lemma_entries_prefix(bytes, more, 16, be32(bytes, 8) as nat, Seq::empty());
}

/// Law: a directory has as many entries as the archive says.
pub proof fn directory_has_announced_length(bytes: Seq<u8>)
    requires
        directory(bytes) is Ok,
    ensures
        directory(bytes)->Ok_0.len() == be32(bytes, 8),
{
    lemma_entries_count(bytes, 16, be32(bytes, 8) as nat, Seq::empty());
}

proof fn lemma_entries_count(bytes: Seq<u8>, pos: int, n: nat, known: Seq<BigEntryView>)
    requires
        entries_from(bytes, pos, n, known) is Ok,
    ensures
        entries_from(bytes, pos, n, known)->Ok_0.len() == known.len() + n,
    decreases n,
{
    if n > 0 {
        let (entry, next) = entry_at(bytes, pos)->0;
        lemma_entries_count(bytes, next, (n - 1) as nat, known.push(entry));
    }
}

} // verus!
