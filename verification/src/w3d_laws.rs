//! Laws of reading models: which names and members a W3D file gives, in terms of the
//! bytes of its chunks.

use vstd::prelude::*;
use vstd::utf8::*;

use crate::names::{last_index, trimmed_end, trimmed_start};
use crate::text::{same_ignoring_case, whitespace};
use crate::w3d::{
    chunk_at, chunk_fits, chunk_members, chunk_names, chunk_size, distinct,
    distinct_keeps_every_text, field, fixed_name, has_children, le32, members_in, models_of,
    names_in, pivot_names, until_zero, walked, with_short, Chunk,
};

verus! {

// ---------------------------------------------------------------------------
// The bytes of a file
// ---------------------------------------------------------------------------
/// The number in the four bytes at `pos`, lowest first.
pub open spec fn number_at(bytes: Seq<u8>, pos: int) -> int {
    bytes[pos] + 256 * (bytes[pos + 1] + 256 * (bytes[pos + 2] + 256 * bytes[pos + 3]))
}

/// How many bytes the payload of the chunk at `pos` has. The top bit of the number is
/// a flag.
pub open spec fn payload_len(bytes: Seq<u8>, pos: int) -> int {
    if number_at(bytes, pos + 4) >= 0x8000_0000 {
        number_at(bytes, pos + 4) - 0x8000_0000
    } else {
        number_at(bytes, pos + 4)
    }
}

/// Whether the payload of the chunk at `pos` is made of chunks: the flag says so, or
/// it is a mesh, a hierarchy, an emitter, an aggregate or part of a level of detail.
pub open spec fn is_nesting(bytes: Seq<u8>, pos: int) -> bool {
    let kind = number_at(bytes, pos);
    ||| number_at(bytes, pos + 4) >= 0x8000_0000
    ||| kind == 0 || kind == 0x100 || kind == 0x500 || kind == 0x600
    ||| kind == 0x700 || kind == 0x702 || kind == 0x705
}

/// A chunk stands at `pos`, in a run of chunks from `start` to `end` that are nested
/// `depth` deep: one behind the other, or one inside another, at most 16 deep.
pub open spec fn chunk_stands(
    bytes: Seq<u8>,
    start: int,
    end: int,
    depth: nat,
    pos: int,
) -> bool
    decreases 17 - depth, end - start,
{
    let next = start + 8 + payload_len(bytes, start);
    &&& depth <= 16
    &&& 0 <= start && start + 8 <= next <= end <= bytes.len()
    &&& {
        ||| pos == start
        ||| is_nesting(bytes, start) && chunk_stands(bytes, start + 8, next, depth + 1, pos)
        ||| chunk_stands(bytes, next, end, depth, pos)
    }
}

/// The bytes hold a chunk at `pos`.
pub open spec fn has_chunk(bytes: Seq<u8>, pos: int) -> bool {
    chunk_stands(bytes, 0, bytes.len() as int, 0, pos)
}

/// A field of fixed size spells a name: its bytes, and a zero behind them if there is
/// room.
pub open spec fn spells(bytes: Seq<u8>, name: Seq<char>) -> bool {
    let spelled = encode_utf8(name);
    &&& name.len() > 0
    &&& !whitespace(name[0])
    &&& !whitespace(name[name.len() - 1])
    &&& spelled.len() <= bytes.len()
    &&& forall|i: int| 0 <= i < spelled.len() ==> #[trigger] bytes[i] == spelled[i] && bytes[i] != 0
    &&& spelled.len() < bytes.len() ==> bytes[spelled.len() as int] == 0
}

/// The bytes `from..to` of the payload of the chunk at `pos`.
pub open spec fn part_of(bytes: Seq<u8>, pos: int, from: int, to: int) -> Seq<u8> {
    bytes.subrange(pos + 8 + from, pos + 8 + to)
}

/// The field `from..to` of the payload of the chunk at `pos` is a name of a model: the
/// container of a mesh, a hierarchy, an emitter or an aggregate, or a level of detail
/// and its hierarchy.
pub open spec fn is_model_field(bytes: Seq<u8>, pos: int, from: int, to: int) -> bool {
    let kind = number_at(bytes, pos);
    let len = payload_len(bytes, pos);
    ||| kind == 0x1F && len >= 40 && from == 24 && to == 40
    ||| (kind == 0x101 || kind == 0x501 || kind == 0x601) && len >= 20 && from == 4 && to == 20
    ||| kind == 0x701 && len >= 40 && (from == 8 && to == 24 || from == 24 && to == 40)
}

/// The field `from..to` of the payload of the chunk at `pos` is a name of a member: a
/// mesh, a bone, or a part of a level of detail, a box or a dazzle.
pub open spec fn is_member_field(bytes: Seq<u8>, pos: int, from: int, to: int) -> bool {
    let kind = number_at(bytes, pos);
    let len = payload_len(bytes, pos);
    ||| kind == 0x1F && len >= 40 && from == 8 && to == 24
    ||| kind == 0x102 && 0 <= from && from % 60 == 0 && to == from + 16 && from + 60 <= len
    ||| kind == 0x704 && len >= 36 && from == 4 && to == 36
    ||| kind == 0x740 && len >= 40 && from == 8 && to == 40
    ||| kind == 0x750 && len >= 48 && from == 16 && to == 48
}

// ---------------------------------------------------------------------------
// Reading them
// ---------------------------------------------------------------------------
proof fn lemma_number(bytes: Seq<u8>, pos: int)
    ensures
        number_at(bytes, pos) == le32(bytes, pos),
        0 <= le32(bytes, pos) <= u32::MAX,
        payload_len(bytes, pos) == chunk_size(bytes, pos),
        0 <= chunk_size(bytes, pos),
        is_nesting(bytes, pos) == has_children(bytes, pos),
{
    let n = le32(bytes, pos + 4);
    assert(0 <= n <= u32::MAX);
    if n >= 0x8000_0000 {
        assert(n % 0x8000_0000 == n - 0x8000_0000) by (nonlinear_arith)
            requires
                0x8000_0000 <= n < 0x1_0000_0000,
        ;
    }
}

proof fn lemma_walked(bytes: Seq<u8>, start: int, end: int, depth: nat, pos: int)
    requires
        bytes.len() <= usize::MAX,
        chunk_stands(bytes, start, end, depth, pos),
    ensures
        walked(bytes, start, end, depth).contains(chunk_at(bytes, pos)),
        0 <= pos,
        pos + 8 + payload_len(bytes, pos) <= bytes.len(),
    decreases 17 - depth, end - start,
{
    lemma_number(bytes, start);
    let next = start + 8 + payload_len(bytes, start);
    let all = walked(bytes, start, end, depth);
    let below = if has_children(bytes, start) {
        walked(bytes, start + 8, next, depth + 1)
    } else {
        Seq::empty()
    };
    let behind = walked(bytes, next, end, depth);
    assert(chunk_fits(bytes, start, end));
    assert(all == seq![chunk_at(bytes, start)] + below + behind);
    if pos == start {
        assert(all[0] == chunk_at(bytes, pos));
    } else if is_nesting(bytes, start) && chunk_stands(bytes, start + 8, next, depth + 1, pos) {
        lemma_walked(bytes, start + 8, next, depth + 1, pos);
        let i = choose|i: int| 0 <= i < below.len() && below[i] == chunk_at(bytes, pos);
        assert(all[1 + i] == below[i]);
    } else {
        lemma_walked(bytes, next, end, depth, pos);
        let i = choose|i: int| 0 <= i < behind.len() && behind[i] == chunk_at(bytes, pos);
        assert(all[1 + below.len() + i] == behind[i]);
    }
}

proof fn lemma_stands(bytes: Seq<u8>, start: int, end: int, depth: nat, i: int) -> (pos: int)
    requires
        bytes.len() <= usize::MAX,
        end <= bytes.len(),
        0 <= i < walked(bytes, start, end, depth).len(),
    ensures
        chunk_stands(bytes, start, end, depth, pos),
        walked(bytes, start, end, depth)[i] == chunk_at(bytes, pos),
    decreases 17 - depth, end - start,
{
    lemma_number(bytes, start);
    let next = start + 8 + payload_len(bytes, start);
    let below = if has_children(bytes, start) {
        walked(bytes, start + 8, next, depth + 1)
    } else {
        Seq::empty()
    };
    if i == 0 {
        start
    } else if i < 1 + below.len() {
        lemma_stands(bytes, start + 8, next, depth + 1, i - 1)
    } else {
        lemma_stands(bytes, next, end, depth, i - 1 - below.len())
    }
}

proof fn lemma_until_zero(bytes: Seq<u8>, n: int)
    requires
        0 <= n <= bytes.len(),
        forall|i: int| 0 <= i < n ==> #[trigger] bytes[i] != 0,
        n < bytes.len() ==> bytes[n] == 0,
    ensures
        until_zero(bytes) == bytes.take(n),
    decreases n,
{
    if n > 0 {
        let rest = bytes.drop_first();
        assert forall|i: int| 0 <= i < n - 1 implies #[trigger] rest[i] != 0 by {
            assert(bytes[i + 1] != 0);
        }
        if n < bytes.len() {
            assert(rest[n - 1] == bytes[n]);
        }
        lemma_until_zero(rest, n - 1);
        assert(bytes[0] != 0);
        assert(seq![bytes[0]] + rest.take(n - 1) =~= bytes.take(n));
    } else {
        assert(bytes.take(0) =~= Seq::<u8>::empty());
    }
}

/// Law: a field that spells a name is read as that name.
pub proof fn spelled_names_are_read(bytes: Seq<u8>, name: Seq<char>)
    requires
        spells(bytes, name),
    ensures
        fixed_name(bytes) == name,
{
    let spelled = encode_utf8(name);
    lemma_until_zero(bytes, spelled.len() as int);
    assert(bytes.take(spelled.len() as int) =~= spelled);
    encode_utf8_valid_utf8(name);
    encode_utf8_decode_utf8(name);
    reveal_with_fuel(trimmed_start, 2);
    reveal_with_fuel(trimmed_end, 2);
    assert(trimmed_start(name) == name);
    assert(trimmed_end(name) == name);
}

proof fn lemma_pivots(bytes: Seq<u8>, chunk: Chunk, n: nat, i: int)
    requires
        0 <= i < n,
    ensures
        ({
            let name = fixed_name(field(bytes, chunk, 60 * i, 60 * i + 16));
            name.len() > 0 ==> pivot_names(bytes, chunk, n).contains(name)
        }),
    decreases n,
{
    let name = fixed_name(field(bytes, chunk, 60 * i, 60 * i + 16));
    let rest = pivot_names(bytes, chunk, (n - 1) as nat);
    let all = pivot_names(bytes, chunk, n);
    if name.len() > 0 {
        if i < n - 1 {
            lemma_pivots(bytes, chunk, (n - 1) as nat, i);
            let k = choose|k: int| 0 <= k < rest.len() && rest[k] == name;
            assert(all[k] == name);
        } else {
            assert(with_short(name)[0] == name);
            assert(all[rest.len() as int] == name);
        }
    }
}

proof fn lemma_listed_names(
    bytes: Seq<u8>,
    chunks: Seq<Chunk>,
    first: Seq<Seq<char>>,
    chunk: Chunk,
    name: Seq<char>,
)
    requires
        chunks.contains(chunk),
        chunk_names(bytes, chunk).contains(name),
    ensures
        names_in(bytes, chunks, first).contains(name),
    decreases chunks.len(),
{
    let k = choose|k: int| 0 <= k < chunks.len() && chunks[k] == chunk;
    let rest = chunks.drop_last();
    let before = names_in(bytes, rest, first);
    let all = names_in(bytes, chunks, first);
    if k < chunks.len() - 1 {
        assert(rest[k] == chunk);
        lemma_listed_names(bytes, rest, first, chunk, name);
        let i = choose|i: int| 0 <= i < before.len() && before[i] == name;
        assert(all[i] == name);
    } else {
        let own = chunk_names(bytes, chunk);
        let i = choose|i: int| 0 <= i < own.len() && own[i] == name;
        assert(all[before.len() + i] == name);
    }
}

proof fn lemma_listed_members(bytes: Seq<u8>, chunks: Seq<Chunk>, chunk: Chunk, name: Seq<char>)
    requires
        chunks.contains(chunk),
        chunk_members(bytes, chunk).contains(name),
    ensures
        members_in(bytes, chunks).contains(name),
    decreases chunks.len(),
{
    let k = choose|k: int| 0 <= k < chunks.len() && chunks[k] == chunk;
    let rest = chunks.drop_last();
    let before = members_in(bytes, rest);
    let all = members_in(bytes, chunks);
    if k < chunks.len() - 1 {
        assert(rest[k] == chunk);
        lemma_listed_members(bytes, rest, chunk, name);
        let i = choose|i: int| 0 <= i < before.len() && before[i] == name;
        assert(all[i] == name);
    } else {
        let own = chunk_members(bytes, chunk);
        let i = choose|i: int| 0 <= i < own.len() && own[i] == name;
        assert(all[before.len() + i] == name);
    }
}

// ---------------------------------------------------------------------------
// Laws
// ---------------------------------------------------------------------------
/// Some model of a file has this name, in any case.
pub open spec fn gives_model(bytes: Seq<u8>, fallback: Seq<char>, name: Seq<char>) -> bool {
    exists|i: int|
        0 <= i < models_of(bytes, fallback).len() && same_ignoring_case(
            (#[trigger] models_of(bytes, fallback)[i]).name,
            name,
        )
}

/// Law: a file has a model for each name of a model that its chunks spell.
pub proof fn spelled_models_are_given(
    bytes: Seq<u8>,
    fallback: Seq<char>,
    pos: int,
    from: int,
    to: int,
    name: Seq<char>,
)
    requires
        bytes.len() <= usize::MAX,
        has_chunk(bytes, pos),
        is_model_field(bytes, pos, from, to),
        spells(part_of(bytes, pos, from, to), name),
    ensures
        gives_model(bytes, fallback, name),
{
    lemma_number(bytes, pos);
    lemma_walked(bytes, 0, bytes.len() as int, 0, pos);
    let chunks = walked(bytes, 0, bytes.len() as int, 0);
    let chunk = chunk_at(bytes, pos);
    spelled_names_are_read(part_of(bytes, pos, from, to), name);
    assert(field(bytes, chunk, from, to) == part_of(bytes, pos, from, to));
    let own = chunk_names(bytes, chunk);
    assert(with_short(name)[0] == name);
    assert(own.contains(name)) by {
        if chunk.kind == 0x701 && from == 24 {
            let before = with_short(fixed_name(field(bytes, chunk, 8, 24)));
            assert(own[before.len() as int] == name);
        } else {
            assert(own[0] == name);
        }
    }
    let first = if fallback.len() == 0 {
        Seq::empty()
    } else {
        seq![fallback]
    };
    lemma_listed_names(bytes, chunks, first, chunk, name);
    let all = names_in(bytes, chunks, first);
    let k = choose|k: int| 0 <= k < all.len() && all[k] == name;
    distinct_keeps_every_text(all, k);
    let i = choose|i: int|
        0 <= i < distinct(all).len() && same_ignoring_case(#[trigger] distinct(all)[i], name);
    assert(models_of(bytes, fallback)[i].name == distinct(all)[i]);
}

/// Law: every model of a file has each member that the file's chunks spell.
pub proof fn spelled_members_are_given(
    bytes: Seq<u8>,
    fallback: Seq<char>,
    pos: int,
    from: int,
    to: int,
    name: Seq<char>,
    i: int,
)
    requires
        bytes.len() <= usize::MAX,
        has_chunk(bytes, pos),
        is_member_field(bytes, pos, from, to),
        spells(part_of(bytes, pos, from, to), name),
        0 <= i < models_of(bytes, fallback).len(),
    ensures
        exists|m: int|
            0 <= m < models_of(bytes, fallback)[i].members.len() && same_ignoring_case(
                #[trigger] models_of(bytes, fallback)[i].members[m],
                name,
            ),
{
    lemma_number(bytes, pos);
    lemma_walked(bytes, 0, bytes.len() as int, 0, pos);
    let chunks = walked(bytes, 0, bytes.len() as int, 0);
    let chunk = chunk_at(bytes, pos);
    spelled_names_are_read(part_of(bytes, pos, from, to), name);
    assert(field(bytes, chunk, from, to) == part_of(bytes, pos, from, to));
    let own = chunk_members(bytes, chunk);
    assert(with_short(name)[0] == name);
    assert(own.contains(name)) by {
        if chunk.kind == 0x102 {
            let len = payload_len(bytes, pos);
            let p = from / 60;
            assert(from == 60 * p) by (nonlinear_arith)
                requires
                    from % 60 == 0,
                    p == from / 60,
            ;
            assert(p < len / 60) by (nonlinear_arith)
                requires
                    60 * p + 60 <= len,
                    0 <= p,
            ;
            lemma_pivots(bytes, chunk, (len / 60) as nat, p);
        } else {
            assert(own[0] == name);
        }
    }
    lemma_listed_members(bytes, chunks, chunk, name);
    let all = members_in(bytes, chunks);
    let k = choose|k: int| 0 <= k < all.len() && all[k] == name;
    distinct_keeps_every_text(all, k);
    let m = choose|m: int|
        0 <= m < distinct(all).len() && same_ignoring_case(#[trigger] distinct(all)[m], name);
    assert(models_of(bytes, fallback)[i].members == distinct(all));
}

/// A name, or the part of one behind its last dot.
pub open spec fn is_name_or_short(text: Seq<char>, name: Seq<char>) -> bool {
    text.len() > 0 && (text == name || exists|d: int|
        0 <= d < name.len() && name[d] == '.' && text == #[trigger] name.skip(d + 1)
            && !text.contains('.'))
}

proof fn lemma_last_dot(s: Seq<char>)
    ensures
        -1 <= last_index(s, '.') < s.len(),
        last_index(s, '.') >= 0 ==> s[last_index(s, '.')] == '.',
        !s.skip(last_index(s, '.') + 1).contains('.'),
    decreases s.len(),
{
    let i = last_index(s, '.');
    if s.len() > 0 && s.last() != '.' {
        let rest = s.drop_last();
        lemma_last_dot(rest);
        assert(i == last_index(rest, '.'));
        let tail = s.skip(i + 1);
        if tail.contains('.') {
            let k = choose|k: int| 0 <= k < tail.len() && tail[k] == '.';
            if k < tail.len() - 1 {
                assert(rest.skip(i + 1)[k] == '.');
            }
        }
    } else if s.len() > 0 {
        assert(s.skip(i + 1) =~= Seq::<char>::empty());
    }
}

proof fn lemma_with_short(name: Seq<char>, text: Seq<char>)
    requires
        with_short(name).contains(text),
    ensures
        is_name_or_short(text, name),
{
    let i = choose|i: int| 0 <= i < with_short(name).len() && with_short(name)[i] == text;
    if i > 0 {
        lemma_last_dot(name);
        let d = last_index(name, '.');
        assert(text == name.skip(d + 1));
    }
}

/// A name stems from a field of the chunk at `pos`.
pub open spec fn stems_from(
    bytes: Seq<u8>,
    pos: int,
    from: int,
    to: int,
    name: Seq<char>,
) -> bool {
    is_name_or_short(name, fixed_name(part_of(bytes, pos, from, to)))
}

proof fn lemma_name_origin(bytes: Seq<u8>, pos: int, name: Seq<char>)
    requires
        bytes.len() <= usize::MAX,
        has_chunk(bytes, pos),
        chunk_names(bytes, chunk_at(bytes, pos)).contains(name),
    ensures
        exists|from: int, to: int|
            is_model_field(bytes, pos, from, to) && #[trigger] stems_from(
                bytes,
                pos,
                from,
                to,
                name,
            ),
{
    lemma_number(bytes, pos);
    lemma_walked(bytes, 0, bytes.len() as int, 0, pos);
    let chunk = chunk_at(bytes, pos);
    let own = chunk_names(bytes, chunk);
    let i = choose|i: int| 0 <= i < own.len() && own[i] == name;
    if chunk.kind == 0x1F {
        lemma_with_short(fixed_name(part_of(bytes, pos, 24, 40)), name);
        assert(stems_from(bytes, pos, 24, 40, name));
    } else if chunk.kind == 0x701 {
        let a = with_short(fixed_name(part_of(bytes, pos, 8, 24)));
        let b = with_short(fixed_name(part_of(bytes, pos, 24, 40)));
        if i < a.len() {
            assert(a[i] == name);
            lemma_with_short(fixed_name(part_of(bytes, pos, 8, 24)), name);
            assert(stems_from(bytes, pos, 8, 24, name));
        } else {
            assert(b[i - a.len()] == name);
            lemma_with_short(fixed_name(part_of(bytes, pos, 24, 40)), name);
            assert(stems_from(bytes, pos, 24, 40, name));
        }
    } else {
        lemma_with_short(fixed_name(part_of(bytes, pos, 4, 20)), name);
        assert(stems_from(bytes, pos, 4, 20, name));
    }
}

proof fn lemma_names_origin(
    bytes: Seq<u8>,
    chunks: Seq<Chunk>,
    first: Seq<Seq<char>>,
    name: Seq<char>,
)
    requires
        names_in(bytes, chunks, first).contains(name),
    ensures
        first.contains(name) || exists|k: int|
            0 <= k < chunks.len() && chunk_names(bytes, #[trigger] chunks[k]).contains(name),
    decreases chunks.len(),
{
    if chunks.len() > 0 {
        let rest = chunks.drop_last();
        let before = names_in(bytes, rest, first);
        let all = names_in(bytes, chunks, first);
        let i = choose|i: int| 0 <= i < all.len() && all[i] == name;
        if i < before.len() {
            assert(before[i] == name);
            lemma_names_origin(bytes, rest, first, name);
            if !first.contains(name) {
                let k = choose|k: int|
                    0 <= k < rest.len() && chunk_names(bytes, #[trigger] rest[k]).contains(name);
                assert(chunks[k] == rest[k]);
            }
        } else {
            let own = chunk_names(bytes, chunks.last());
            assert(own[i - before.len()] == name);
            assert(chunk_names(bytes, chunks[chunks.len() - 1]).contains(name));
        }
    }
}

proof fn lemma_distinct_origin(texts: Seq<Seq<char>>, i: int)
    requires
        0 <= i < distinct(texts).len(),
    ensures
        texts.contains(distinct(texts)[i]),
    decreases texts.len(),
{
    let rest = distinct(texts.drop_last());
    if i < rest.len() {
        lemma_distinct_origin(texts.drop_last(), i);
        let k = choose|k: int|
            0 <= k < texts.drop_last().len() && texts.drop_last()[k] == rest[i];
        assert(texts[k] == rest[i]);
    } else {
        assert(texts[texts.len() - 1] == distinct(texts)[i]);
    }
}

/// Law: a file has no other models than the one that is named after it and those
/// whose names its chunks hold, whole or behind their last dot.
pub proof fn models_stem_from_the_file(bytes: Seq<u8>, fallback: Seq<char>, i: int)
    requires
        bytes.len() <= usize::MAX,
        0 <= i < models_of(bytes, fallback).len(),
    ensures
        ({
            let name = models_of(bytes, fallback)[i].name;
            name == fallback && name.len() > 0 || exists|pos: int, from: int, to: int|
                has_chunk(bytes, pos) && is_model_field(bytes, pos, from, to)
                    && #[trigger] stems_from(bytes, pos, from, to, name)
        }),
{
    let chunks = walked(bytes, 0, bytes.len() as int, 0);
    let first = if fallback.len() == 0 {
        Seq::empty()
    } else {
        seq![fallback]
    };
    let all = names_in(bytes, chunks, first);
    let name = models_of(bytes, fallback)[i].name;
    lemma_distinct_origin(all, i);
    lemma_names_origin(bytes, chunks, first, name);
    if !first.contains(name) {
        let k = choose|k: int|
            0 <= k < chunks.len() && chunk_names(bytes, #[trigger] chunks[k]).contains(name);
        let pos = lemma_stands(bytes, 0, bytes.len() as int, 0, k);
        lemma_name_origin(bytes, pos, name);
        let (from, to) = choose|from: int, to: int|
            is_model_field(bytes, pos, from, to) && #[trigger] stems_from(
                bytes,
                pos,
                from,
                to,
                name,
            );
        assert(stems_from(bytes, pos, from, to, name));
    }
}

proof fn lemma_member_origin(bytes: Seq<u8>, pos: int, name: Seq<char>)
    requires
        bytes.len() <= usize::MAX,
        has_chunk(bytes, pos),
        chunk_members(bytes, chunk_at(bytes, pos)).contains(name),
    ensures
        exists|from: int, to: int|
            is_member_field(bytes, pos, from, to) && #[trigger] stems_from(
                bytes,
                pos,
                from,
                to,
                name,
            ),
{
    lemma_number(bytes, pos);
    lemma_walked(bytes, 0, bytes.len() as int, 0, pos);
    let chunk = chunk_at(bytes, pos);
    if chunk.kind == 0x102 {
        let len = payload_len(bytes, pos);
        let p = lemma_pivot_origin(bytes, chunk, (len / 60) as nat, name);
        assert(60 * p + 60 <= len) by (nonlinear_arith)
            requires
                p < len / 60,
        ;
        assert((60 * p) % 60 == 0) by (nonlinear_arith);
        assert(stems_from(bytes, pos, 60 * p, 60 * p + 16, name));
    } else {
        let (from, to) = if chunk.kind == 0x1F {
            (8int, 24int)
        } else if chunk.kind == 0x704 {
            (4int, 36int)
        } else if chunk.kind == 0x740 {
            (8int, 40int)
        } else {
            (16int, 48int)
        };
        lemma_with_short(fixed_name(part_of(bytes, pos, from, to)), name);
        assert(stems_from(bytes, pos, from, to, name));
    }
}

proof fn lemma_pivot_origin(bytes: Seq<u8>, chunk: Chunk, n: nat, name: Seq<char>) -> (p: int)
    requires
        pivot_names(bytes, chunk, n).contains(name),
    ensures
        0 <= p < n,
        is_name_or_short(name, fixed_name(field(bytes, chunk, 60 * p, 60 * p + 16))),
    decreases n,
{
    let all = pivot_names(bytes, chunk, n);
    let i = choose|i: int| 0 <= i < all.len() && all[i] == name;
    let rest = pivot_names(bytes, chunk, (n - 1) as nat);
    if i < rest.len() {
        assert(rest[i] == name);
        lemma_pivot_origin(bytes, chunk, (n - 1) as nat, name)
    } else {
        let own = fixed_name(field(bytes, chunk, 60 * (n - 1), 60 * (n - 1) + 16));
        assert(with_short(own)[i - rest.len()] == name);
        lemma_with_short(own, name);
        n - 1
    }
}

proof fn lemma_members_origin(bytes: Seq<u8>, chunks: Seq<Chunk>, name: Seq<char>)
    requires
        members_in(bytes, chunks).contains(name),
    ensures
        exists|k: int|
            0 <= k < chunks.len() && chunk_members(bytes, #[trigger] chunks[k]).contains(name),
    decreases chunks.len(),
{
    if chunks.len() > 0 {
        let rest = chunks.drop_last();
        let before = members_in(bytes, rest);
        let all = members_in(bytes, chunks);
        let i = choose|i: int| 0 <= i < all.len() && all[i] == name;
        if i < before.len() {
            assert(before[i] == name);
            lemma_members_origin(bytes, rest, name);
            let k = choose|k: int|
                0 <= k < rest.len() && chunk_members(bytes, #[trigger] rest[k]).contains(name);
            assert(chunks[k] == rest[k]);
        } else {
            let own = chunk_members(bytes, chunks.last());
            assert(own[i - before.len()] == name);
            assert(chunk_members(bytes, chunks[chunks.len() - 1]).contains(name));
        }
    }
}

/// Law: the models of a file have no other members than those whose names its chunks
/// hold, whole or behind their last dot.
pub proof fn members_stem_from_the_file(bytes: Seq<u8>, fallback: Seq<char>, i: int, m: int)
    requires
        bytes.len() <= usize::MAX,
        0 <= i < models_of(bytes, fallback).len(),
        0 <= m < models_of(bytes, fallback)[i].members.len(),
    ensures
        exists|pos: int, from: int, to: int|
            has_chunk(bytes, pos) && is_member_field(bytes, pos, from, to) && #[trigger] stems_from(
                bytes,
                pos,
                from,
                to,
                models_of(bytes, fallback)[i].members[m],
            ),
{
    let chunks = walked(bytes, 0, bytes.len() as int, 0);
    let all = members_in(bytes, chunks);
    let name = models_of(bytes, fallback)[i].members[m];
    assert(models_of(bytes, fallback)[i].members == distinct(all));
    lemma_distinct_origin(all, m);
    lemma_members_origin(bytes, chunks, name);
    let k = choose|k: int|
        0 <= k < chunks.len() && chunk_members(bytes, #[trigger] chunks[k]).contains(name);
    let pos = lemma_stands(bytes, 0, bytes.len() as int, 0, k);
    lemma_member_origin(bytes, pos, name);
    let (from, to) = choose|from: int, to: int|
        is_member_field(bytes, pos, from, to) && #[trigger] stems_from(bytes, pos, from, to, name);
    assert(stems_from(bytes, pos, from, to, name));
}

} // verus!
