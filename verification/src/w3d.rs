//! Model names and members from W3D files.
//!
//! A W3D file is a sequence of chunks: a kind, a length and a payload, which for
//! some kinds is again a sequence of chunks.

use vstd::prelude::*;
use vstd::slice::slice_subrange;
use vstd::string::*;
use vstd::utf8::*;

use crate::facts::{item_views, lists_name, ModelAsset, ModelView};
use crate::names::{from_utf8, rsplit_once, split_last, trim, trimmed};
use crate::text::same_ignoring_case;

verus! {

/// Chunks nested deeper than this are not looked into, so that a file of
/// nothing but nested headers cannot exhaust the stack.
pub const MAX_W3D_CHUNK_DEPTH: usize = 16;

/// A chunk: its kind and where its payload lies.
#[derive(Debug, Clone, Copy, PartialEq, Eq, Structural)]
pub struct Chunk {
    pub kind: u32,
    pub start: usize,
    pub end: usize,
}

/// Four bytes as a little-endian number.
pub open spec fn le32(bytes: Seq<u8>, pos: int) -> int {
    bytes[pos] + bytes[pos + 1] * 0x100 + bytes[pos + 2] * 0x1_0000 + bytes[pos + 3] * 0x100_0000
}

/// Kinds whose payload is a sequence of chunks whether they say so or not.
pub open spec fn is_container(kind: u32) -> bool {
    kind == 0x0 || kind == 0x100 || kind == 0x500 || kind == 0x600 || kind == 0x700 || kind
        == 0x702 || kind == 0x705
}

/// Whether the kind's payload is a sequence of chunks.
pub fn is_w3d_container(kind: u32) -> (yes: bool)
    ensures
        yes == is_container(kind),
{
    kind == 0x0 || kind == 0x100 || kind == 0x500 || kind == 0x600 || kind == 0x700 || kind
        == 0x702 || kind == 0x705
}

/// The payload length of the chunk at `pos`, without the flag in its top bit.
pub open spec fn chunk_size(bytes: Seq<u8>, pos: int) -> int {
    le32(bytes, pos + 4) % 0x8000_0000
}

/// Whether a chunk at `pos` fits in front of `end`, header and payload.
pub open spec fn chunk_fits(bytes: Seq<u8>, pos: int, end: int) -> bool {
    &&& 0 <= pos
    &&& pos + 8 <= end
    &&& pos + 8 <= bytes.len()
    &&& pos + 8 + chunk_size(bytes, pos) <= end
    &&& pos + 8 + chunk_size(bytes, pos) <= bytes.len()
}

/// The chunk at `pos`.
pub open spec fn chunk_at(bytes: Seq<u8>, pos: int) -> Chunk {
    Chunk {
        kind: le32(bytes, pos) as u32,
        start: (pos + 8) as usize,
        end: (pos + 8 + chunk_size(bytes, pos)) as usize,
    }
}

/// Whether the payload of the chunk at `pos` is a sequence of chunks: the top
/// bit of its length is set, or its kind says so.
pub open spec fn has_children(bytes: Seq<u8>, pos: int) -> bool {
    le32(bytes, pos + 4) >= 0x8000_0000 || is_container(chunk_at(bytes, pos).kind)
}

/// The chunks between `pos` and `end`, each followed by those inside it, up to
/// the first that does not fit.
pub open spec fn walked(bytes: Seq<u8>, pos: int, end: int, depth: nat) -> Seq<Chunk>
    decreases MAX_W3D_CHUNK_DEPTH + 1 - depth, end - pos,
{
    if depth > MAX_W3D_CHUNK_DEPTH || !chunk_fits(bytes, pos, end) {
        Seq::empty()
    } else {
        let next = pos + 8 + chunk_size(bytes, pos);
        let inside = if has_children(bytes, pos) {
            walked(bytes, pos + 8, next, depth + 1)
        } else {
            Seq::empty()
        };
        seq![chunk_at(bytes, pos)] + inside + walked(bytes, next, end, depth)
    }
}

fn read_le32(bytes: &[u8], pos: usize) -> (out: u32)
    requires
        pos + 4 <= bytes.len(),
    ensures
        out == le32(bytes@, pos as int),
{
    bytes[pos] as u32 + bytes[pos + 1] as u32 * 0x100 + bytes[pos + 2] as u32 * 0x1_0000 + bytes[pos
        + 3] as u32 * 0x100_0000
}

/// Every chunk lies inside the bytes.
pub open spec fn inside(chunks: Seq<Chunk>, len: int) -> bool {
    forall|i: int| 0 <= i < chunks.len() ==> (#[trigger] chunks[i]).start <= chunks[i].end <= len
}

/// The chunks that are found lie inside the bytes.
proof fn lemma_walked_inside(bytes: Seq<u8>, pos: int, end: int, depth: nat)
    requires
        bytes.len() <= usize::MAX,
    ensures
        inside(walked(bytes, pos, end, depth), bytes.len() as int),
    decreases MAX_W3D_CHUNK_DEPTH + 1 - depth, end - pos,
{
    if depth <= MAX_W3D_CHUNK_DEPTH && chunk_fits(bytes, pos, end) {
        let next = pos + 8 + chunk_size(bytes, pos);
        lemma_walked_inside(bytes, pos + 8, next, depth + 1);
        lemma_walked_inside(bytes, next, end, depth);
    }
}

/// Collect the chunks between `pos` and `end` behind those in `out`.
pub fn walk_w3d_chunks(bytes: &[u8], pos: usize, end: usize, depth: usize, out: &mut Vec<Chunk>)
    ensures
        final(out)@ == old(out)@ + walked(bytes@, pos as int, end as int, depth as nat),
    decreases MAX_W3D_CHUNK_DEPTH + 1 - depth, 1int,
{
    let ghost all = out@ + walked(bytes@, pos as int, end as int, depth as nat);
    if depth > MAX_W3D_CHUNK_DEPTH {
        assert(all =~= out@);
        return;
    }
    let limit: usize = if end < bytes.len() {
        end
    } else {
        bytes.len()
    };
    let mut at = pos;
    while at <= limit && limit - at >= 8
        invariant
            limit == if end < bytes.len() {
                end as int
            } else {
                bytes.len() as int
            },
            depth <= MAX_W3D_CHUNK_DEPTH,
            all == old(out)@ + walked(bytes@, pos as int, end as int, depth as nat),
            all == out@ + walked(bytes@, at as int, end as int, depth as nat),
        decreases limit - at,
    {
        let kind = read_le32(bytes, at);
        let raw = read_le32(bytes, at + 4);
        let children = raw >= 0x8000_0000 || is_w3d_container(kind);
        let size: usize = (raw % 0x8000_0000) as usize;
        let start: usize = at + 8;
        if size > limit - start {
            assert(!chunk_fits(bytes@, at as int, end as int));
            assert(all =~= out@);
            return;
        }
        let next: usize = start + size;
        let ghost here = at as int;
        let ghost before = out@;
        assert(chunk_fits(bytes@, here, end as int));
        out.push(Chunk { kind, start, end: next });
        assert(out@.last() == chunk_at(bytes@, here));
        let ghost below = if has_children(bytes@, here) {
            walked(bytes@, here + 8, next as int, (depth + 1) as nat)
        } else {
            Seq::empty()
        };
        if children {
            walk_w3d_chunks(bytes, start, next, depth + 1, out);
        }
        at = next;
        assert(walked(bytes@, here, end as int, depth as nat) == seq![chunk_at(bytes@, here)]
            + below + walked(bytes@, next as int, end as int, depth as nat));
        assert(out@ =~= before + seq![chunk_at(bytes@, here)] + below);
        assert(all =~= out@ + walked(bytes@, at as int, end as int, depth as nat));
    }
    assert(!chunk_fits(bytes@, at as int, end as int));
    assert(all =~= out@);
}

// ---------------------------------------------------------------------------
// Names
// ---------------------------------------------------------------------------
/// Bytes up to the first zero.
pub open spec fn until_zero(bytes: Seq<u8>) -> Seq<u8>
    decreases bytes.len(),
{
    if bytes.len() == 0 || bytes[0] == 0 {
        Seq::empty()
    } else {
        seq![bytes[0]] + until_zero(bytes.drop_first())
    }
}

/// A name in a field of fixed size: the text up to the first zero, trimmed;
/// nothing if it is not UTF-8.
pub open spec fn fixed_name(bytes: Seq<u8>) -> Seq<char> {
    let text = until_zero(bytes);
    if valid_utf8(text) {
        trimmed(decode_utf8(text))
    } else {
        Seq::empty()
    }
}

fn zero_at(bytes: &[u8]) -> (at: usize)
    ensures
        at <= bytes.len(),
        bytes@.take(at as int) == until_zero(bytes@),
{
    let mut at: usize = 0;
    assert(bytes@.take(0) =~= Seq::<u8>::empty());
    assert(bytes@.skip(0) =~= bytes@);
    while at < bytes.len()
        invariant
            at <= bytes.len(),
            until_zero(bytes@) == bytes@.take(at as int) + until_zero(bytes@.skip(at as int)),
        decreases bytes.len() - at,
    {
        assert(bytes@.skip(at as int)[0] == bytes@[at as int]);
        if bytes[at] == 0 {
            assert(until_zero(bytes@) =~= bytes@.take(at as int));
            return at;
        }
        assert(bytes@.skip(at as int).drop_first() =~= bytes@.skip(at + 1));
        assert(bytes@.take(at + 1) =~= bytes@.take(at as int) + seq![bytes@[at as int]]);
        assert(until_zero(bytes@) =~= bytes@.take(at + 1) + until_zero(bytes@.skip(at + 1)));
        at += 1;
    }
    assert(until_zero(bytes@) =~= bytes@.take(at as int));
    at
}

/// The name in the bytes `from..to`.
pub fn read_fixed_name(bytes: &[u8], from: usize, to: usize) -> (out: String)
    requires
        from <= to <= bytes.len(),
    ensures
        out@ == fixed_name(bytes@.subrange(from as int, to as int)),
{
    let field = slice_subrange(bytes, from, to);
    let at = zero_at(field);
    let text = slice_subrange(field, 0, at);
    assert(text@ =~= field@.take(at as int));
    match from_utf8(text) {
        Some(name) => {
            proof {
                encode_utf8_decode_utf8(name@);
            }
            trim(&name)
        },
        None => {
            let out = String::new();
            assert(out@ =~= Seq::<char>::empty());
            out
        },
    }
}

/// A name and, if it is qualified by dots, its last part.
pub open spec fn with_short(name: Seq<char>) -> Seq<Seq<char>> {
    if name.len() == 0 {
        Seq::empty()
    } else {
        match split_last(name, '.') {
            Some((_, short)) => if short.len() > 0 {
                seq![name, short]
            } else {
                seq![name]
            },
            None => seq![name],
        }
    }
}

/// Add a name and, if it is qualified by dots, its last part.
pub fn push_name(out: &mut Vec<String>, name: String)
    ensures
        item_views(final(out)@) == item_views(old(out)@) + with_short(name@),
{
    let ghost before = item_views(out@);
    if name.as_str().is_empty() {
        assert(before + with_short(name@) =~= before);
        return;
    }
    let short = rsplit_once(&name, '.');
    let ghost text = name@;
    out.push(name);
    assert(item_views(out@) =~= before.push(text));
    if let Some((_, short)) = short {
        if !short.as_str().is_empty() {
            let ghost last = short@;
            out.push(short);
            assert(item_views(out@) =~= before.push(text).push(last));
            assert(before + with_short(text) =~= before.push(text).push(last));
            return;
        }
    }
    assert(before + with_short(text) =~= before.push(text));
}

/// The field `from..to` of a chunk's payload.
pub open spec fn field(bytes: Seq<u8>, chunk: Chunk, from: int, to: int) -> Seq<u8> {
    bytes.subrange(chunk.start + from, chunk.start + to)
}

/// The names of the first `n` pivots of a chunk, sixty bytes each.
pub open spec fn pivot_names(bytes: Seq<u8>, chunk: Chunk, n: nat) -> Seq<Seq<char>>
    decreases n,
{
    if n == 0 {
        Seq::empty()
    } else {
        pivot_names(bytes, chunk, (n - 1) as nat) + with_short(
            fixed_name(field(bytes, chunk, 60 * (n - 1), 60 * (n - 1) + 16)),
        )
    }
}

/// The model names in a chunk.
pub open spec fn chunk_names(bytes: Seq<u8>, chunk: Chunk) -> Seq<Seq<char>> {
    let len = chunk.end - chunk.start;
    if chunk.kind == 0x1F && len >= 40 {
        with_short(fixed_name(field(bytes, chunk, 24, 40)))
    } else if (chunk.kind == 0x101 || chunk.kind == 0x501 || chunk.kind == 0x601) && len >= 20 {
        with_short(fixed_name(field(bytes, chunk, 4, 20)))
    } else if chunk.kind == 0x701 && len >= 40 {
        with_short(fixed_name(field(bytes, chunk, 8, 24))) + with_short(
            fixed_name(field(bytes, chunk, 24, 40)),
        )
    } else {
        Seq::empty()
    }
}

/// The member names in a chunk.
pub open spec fn chunk_members(bytes: Seq<u8>, chunk: Chunk) -> Seq<Seq<char>> {
    let len = chunk.end - chunk.start;
    if chunk.kind == 0x1F && len >= 40 {
        with_short(fixed_name(field(bytes, chunk, 8, 24)))
    } else if chunk.kind == 0x102 {
        pivot_names(bytes, chunk, (len / 60) as nat)
    } else if chunk.kind == 0x704 && len >= 36 {
        with_short(fixed_name(field(bytes, chunk, 4, 36)))
    } else if chunk.kind == 0x740 && len >= 40 {
        with_short(fixed_name(field(bytes, chunk, 8, 40)))
    } else if chunk.kind == 0x750 && len >= 48 {
        with_short(fixed_name(field(bytes, chunk, 16, 48)))
    } else {
        Seq::empty()
    }
}

/// The model names in a list of chunks, behind `first`.
pub open spec fn names_in(bytes: Seq<u8>, chunks: Seq<Chunk>, first: Seq<Seq<char>>) -> Seq<
    Seq<char>,
>
    decreases chunks.len(),
{
    if chunks.len() == 0 {
        first
    } else {
        names_in(bytes, chunks.drop_last(), first) + chunk_names(bytes, chunks.last())
    }
}

/// The member names in a list of chunks.
pub open spec fn members_in(bytes: Seq<u8>, chunks: Seq<Chunk>) -> Seq<Seq<char>>
    decreases chunks.len(),
{
    if chunks.len() == 0 {
        Seq::empty()
    } else {
        members_in(bytes, chunks.drop_last()) + chunk_members(bytes, chunks.last())
    }
}

fn push_pivots(bytes: &[u8], chunk: Chunk, out: &mut Vec<String>)
    requires
        chunk.start <= chunk.end <= bytes.len(),
    ensures
        item_views(final(out)@) == item_views(old(out)@) + pivot_names(
            bytes@,
            chunk,
            ((chunk.end - chunk.start) / 60) as nat,
        ),
{
    let ghost before = item_views(out@);
    let count: usize = (chunk.end - chunk.start) / 60;
    let mut i: usize = 0;
    assert(before + pivot_names(bytes@, chunk, 0) =~= before);
    while i < count
        invariant
            i <= count,
            count == (chunk.end - chunk.start) / 60,
            chunk.start <= chunk.end <= bytes.len(),
            item_views(out@) == before + pivot_names(bytes@, chunk, i as nat),
        decreases count - i,
    {
        assert(60 * i + 60 <= 60 * count <= chunk.end - chunk.start);
        let at: usize = chunk.start + 60 * i;
        let ghost known = item_views(out@);
        push_name(out, read_fixed_name(bytes, at, at + 16));
        assert(pivot_names(bytes@, chunk, (i + 1) as nat) == pivot_names(bytes@, chunk, i as nat)
            + with_short(fixed_name(field(bytes@, chunk, 60 * i, 60 * i + 16))));
        assert(item_views(out@) =~= before + pivot_names(bytes@, chunk, (i + 1) as nat));
        i += 1;
    }
}

fn push_chunk(bytes: &[u8], chunk: Chunk, names: &mut Vec<String>, members: &mut Vec<String>)
    requires
        chunk.start <= chunk.end <= bytes.len(),
    ensures
        item_views(final(names)@) == item_views(old(names)@) + chunk_names(bytes@, chunk),
        item_views(final(members)@) == item_views(old(members)@) + chunk_members(bytes@, chunk),
{
    let ghost names0 = item_views(names@);
    let ghost members0 = item_views(members@);
    let start = chunk.start;
    let len: usize = chunk.end - chunk.start;
    let kind = chunk.kind;
    if kind == 0x1F && len >= 40 {
        push_name(members, read_fixed_name(bytes, start + 8, start + 24));
        push_name(names, read_fixed_name(bytes, start + 24, start + 40));
    } else if (kind == 0x101 || kind == 0x501 || kind == 0x601) && len >= 20 {
        push_name(names, read_fixed_name(bytes, start + 4, start + 20));
        assert(members0 + chunk_members(bytes@, chunk) =~= members0);
    } else if kind == 0x102 {
        push_pivots(bytes, chunk, members);
        assert(names0 + chunk_names(bytes@, chunk) =~= names0);
    } else if kind == 0x701 && len >= 40 {
        push_name(names, read_fixed_name(bytes, start + 8, start + 24));
        push_name(names, read_fixed_name(bytes, start + 24, start + 40));
        assert(item_views(names@) =~= names0 + chunk_names(bytes@, chunk));
        assert(members0 + chunk_members(bytes@, chunk) =~= members0);
    } else if kind == 0x704 && len >= 36 {
        push_name(members, read_fixed_name(bytes, start + 4, start + 36));
        assert(names0 + chunk_names(bytes@, chunk) =~= names0);
    } else if kind == 0x740 && len >= 40 {
        push_name(members, read_fixed_name(bytes, start + 8, start + 40));
        assert(names0 + chunk_names(bytes@, chunk) =~= names0);
    } else if kind == 0x750 && len >= 48 {
        push_name(members, read_fixed_name(bytes, start + 16, start + 48));
        assert(names0 + chunk_names(bytes@, chunk) =~= names0);
    } else {
        assert(names0 + chunk_names(bytes@, chunk) =~= names0);
        assert(members0 + chunk_members(bytes@, chunk) =~= members0);
    }
}

/// The texts of a list, each once in whatever case, as first written.
pub open spec fn distinct(texts: Seq<Seq<char>>) -> Seq<Seq<char>>
    decreases texts.len(),
{
    if texts.len() == 0 {
        Seq::empty()
    } else {
        let rest = distinct(texts.drop_last());
        if lists_name(rest, texts.last()) {
            rest
        } else {
            rest.push(texts.last())
        }
    }
}

fn lists(texts: &Vec<String>, text: &str) -> (found: bool)
    ensures
        found == lists_name(item_views(texts@), text@),
{
    let ghost all = item_views(texts@);
    let mut i: usize = 0;
    while i < texts.len()
        invariant
            i <= texts.len(),
            all == item_views(texts@),
            forall|j: int| 0 <= j < i ==> !same_ignoring_case(#[trigger] all[j], text@),
        decreases texts.len() - i,
    {
        assert(all[i as int] == texts@[i as int]@);
        if texts[i].as_str().eq_ignore_ascii_case(text) {
            return true;
        }
        i += 1;
    }
    false
}

/// Keep of each text, in whatever case, the first.
pub fn dedup_case_insensitive(texts: Vec<String>) -> (out: Vec<String>)
    ensures
        item_views(out@) == distinct(item_views(texts@)),
{
    let ghost all = item_views(texts@);
    let mut out: Vec<String> = Vec::new();
    let mut i: usize = 0;
    assert(all.take(0) =~= Seq::<Seq<char>>::empty());
    assert(item_views(out@) =~= Seq::<Seq<char>>::empty());
    while i < texts.len()
        invariant
            i <= texts.len(),
            all == item_views(texts@),
            item_views(out@) == distinct(all.take(i as int)),
        decreases texts.len() - i,
    {
        assert(all.take(i + 1).drop_last() =~= all.take(i as int));
        assert(all.take(i + 1).last() == texts@[i as int]@);
        if !lists(&out, &texts[i]) {
            let ghost before = item_views(out@);
            out.push(texts[i].clone());
            assert(item_views(out@) =~= before.push(all[i as int]));
        }
        i += 1;
    }
    assert(all.take(i as int) =~= all);
    out
}

/// The models of a W3D file: one for each distinct name in it, the name of the
/// file first, all with the distinct members in it.
pub open spec fn models_of(bytes: Seq<u8>, fallback: Seq<char>) -> Seq<ModelView> {
    let chunks = walked(bytes, 0, bytes.len() as int, 0);
    let first = if fallback.len() == 0 {
        Seq::empty()
    } else {
        seq![fallback]
    };
    let names = distinct(names_in(bytes, chunks, first));
    let members = distinct(members_in(bytes, chunks));
    names.map_values(|name: Seq<char>| ModelView { name, members })
}

fn copy_texts(texts: &Vec<String>) -> (out: Vec<String>)
    ensures
        item_views(out@) == item_views(texts@),
{
    let mut out: Vec<String> = Vec::new();
    let mut i: usize = 0;
    while i < texts.len()
        invariant
            i <= texts.len(),
            out.len() == i,
            forall|j: int| 0 <= j < i ==> (#[trigger] out[j])@ == texts[j]@,
        decreases texts.len() - i,
    {
        out.push(texts[i].clone());
        i += 1;
    }
    assert(item_views(out@) =~= item_views(texts@));
    out
}

/// The models of a W3D file. `fallback_name` is the name of the file.
pub fn parse_w3d_models(bytes: &[u8], fallback_name: &str) -> (out: Vec<ModelAsset>)
    ensures
        item_views(out@) == models_of(bytes@, fallback_name@),
{
    let mut chunks: Vec<Chunk> = Vec::new();
    let len = bytes.len();
    walk_w3d_chunks(bytes, 0, len, 0, &mut chunks);
    proof {
        assert(chunks@ =~= walked(bytes@, 0, len as int, 0));
        lemma_walked_inside(bytes@, 0, len as int, 0);
    }
    let mut names: Vec<String> = Vec::new();
    let mut members: Vec<String> = Vec::new();
    assert(item_views(names@) =~= Seq::<Seq<char>>::empty());
    assert(item_views(members@) =~= Seq::<Seq<char>>::empty());
    if !fallback_name.is_empty() {
        names.push(fallback_name.to_string());
        assert(item_views(names@) =~= seq![fallback_name@]);
    }
    let ghost first = item_views(names@);
    let mut i: usize = 0;
    assert(chunks@.take(0) =~= Seq::<Chunk>::empty());
    while i < chunks.len()
        invariant
            i <= chunks.len(),
            inside(chunks@, bytes@.len() as int),
            item_views(names@) == names_in(bytes@, chunks@.take(i as int), first),
            item_views(members@) == members_in(bytes@, chunks@.take(i as int)),
        decreases chunks.len() - i,
    {
        assert(chunks@.take(i + 1).drop_last() =~= chunks@.take(i as int));
        push_chunk(bytes, chunks[i], &mut names, &mut members);
        i += 1;
    }
    assert(chunks@.take(i as int) =~= chunks@);
    let names = dedup_case_insensitive(names);
    let members = dedup_case_insensitive(members);
    let ghost member_texts = item_views(members@);
    let mut out: Vec<ModelAsset> = Vec::new();
    let mut i: usize = 0;
    while i < names.len()
        invariant
            i <= names.len(),
            member_texts == item_views(members@),
            out.len() == i,
            forall|j: int|
                0 <= j < i ==> (#[trigger] out[j])@ == (ModelView {
                    name: names[j]@,
                    members: member_texts,
                }),
        decreases names.len() - i,
    {
        out.push(ModelAsset { name: names[i].clone(), members: copy_texts(&members) });
        i += 1;
    }
    assert(item_views(out@) =~= models_of(bytes@, fallback_name@)) by {
        let all = item_views(names@);
        assert forall|j: int| 0 <= j < out.len() implies #[trigger] item_views(out@)[j]
            == models_of(bytes@, fallback_name@)[j] by {
            assert(all[j] == names[j]@);
        }
    }
    out
}

// ---------------------------------------------------------------------------
// Laws
// ---------------------------------------------------------------------------
/// Law: a list without repetitions has none in whatever case.
pub proof fn distinct_texts_differ(texts: Seq<Seq<char>>, i: int, j: int)
    requires
        0 <= i < j < distinct(texts).len(),
    ensures
        !same_ignoring_case(distinct(texts)[i], distinct(texts)[j]),
    decreases texts.len(),
{
    let rest = distinct(texts.drop_last());
    if lists_name(rest, texts.last()) {
        distinct_texts_differ(texts.drop_last(), i, j);
    } else if j < rest.len() {
        distinct_texts_differ(texts.drop_last(), i, j);
    } else {
        assert(rest[i] == distinct(texts)[i]);
    }
}

/// Law: removing repetitions loses no text, whatever its case.
pub proof fn distinct_keeps_every_text(texts: Seq<Seq<char>>, k: int)
    requires
        0 <= k < texts.len(),
    ensures
        lists_name(distinct(texts), texts[k]),
    decreases texts.len(),
{
    let rest = distinct(texts.drop_last());
    if k < texts.len() - 1 {
        distinct_keeps_every_text(texts.drop_last(), k);
        let i = choose|i: int|
            0 <= i < rest.len() && same_ignoring_case(#[trigger] rest[i], texts[k]);
        assert(distinct(texts)[i] == rest[i]);
    } else if !lists_name(rest, texts.last()) {
        assert(same_ignoring_case(distinct(texts)[rest.len() as int], texts[k]));
    }
}

/// Law: the name of the file is the name of its first model.
pub proof fn file_name_is_first_model(bytes: Seq<u8>, fallback: Seq<char>)
    requires
        fallback.len() > 0,
    ensures
        models_of(bytes, fallback).len() > 0,
        models_of(bytes, fallback)[0].name == fallback,
{
    let chunks = walked(bytes, 0, bytes.len() as int, 0);
    lemma_names_prefix(bytes, chunks, fallback);
    lemma_distinct_first(names_in(bytes, chunks, seq![fallback]));
}

proof fn lemma_names_prefix(bytes: Seq<u8>, chunks: Seq<Chunk>, first: Seq<char>)
    ensures
        names_in(bytes, chunks, seq![first]).len() > 0,
        names_in(bytes, chunks, seq![first])[0] == first,
    decreases chunks.len(),
{
    if chunks.len() > 0 {
        lemma_names_prefix(bytes, chunks.drop_last(), first);
    }
}

proof fn lemma_distinct_first(texts: Seq<Seq<char>>)
    requires
        texts.len() > 0,
    ensures
        distinct(texts).len() > 0,
        distinct(texts)[0] == texts[0],
    decreases texts.len(),
{
    if texts.len() > 1 {
        lemma_distinct_first(texts.drop_last());
    } else {
        assert(distinct(texts.drop_last()) =~= Seq::<Seq<char>>::empty());
    }
}

} // verus!
