//! Laws of what surrounds the documents: which lines open scopes by a schema, how
//! archives and string tables are read, and how findings are counted.

use vstd::prelude::*;
use vstd::string::*;

use crate::analyzer::{
    block_opens, curated, has_slot, is_inline_block, is_slot_keyword, module_opens, schema_opens,
    sub_blocks_open, SchemaOpeners,
};
use crate::big::{be32, directory, entries_from, entry_at, zero_from, BigEntryView, BigError};
use crate::cachefile::{str_keys, table_from, table_line, TableView};
use crate::checks::Severity;
use crate::ingest::{kind_of, InputKind};
use crate::kind::SyntaxKind;
use crate::lines::{leaf_at, name_at, second_word_is_the_name};
use crate::names::{lossy_text, slashed, trimmed};
use crate::origin::block_text;
use crate::parser::{ChildView, OpenerOracle};
use crate::report::{
    args_from, count_severity, default_args, is_failure, level_of, ArgErrorView, ArgsView, FailOn,
};
use crate::schema::{Schema, SubBlock};
use crate::server::{percent_of, real_roots};
use crate::syntax_laws::letters_have_two_cases;
use crate::text::{find_char, lower, lower_char};
use crate::tree::{elements_text, ElementView, NodeView};

verus! {

// ---------------------------------------------------------------------------
// Scopes
// ---------------------------------------------------------------------------
proof fn lemma_sub_opens(parent: Seq<char>, subs: Seq<SubBlock>, s: int)
    requires
        0 <= s < subs.len(),
    ensures
        sub_blocks_open(parent, subs, parent, subs[s].keyword@),
        forall|scope: Seq<char>, head: Seq<char>|
            sub_blocks_open(subs[s].keyword@, subs[s].sub_blocks@, scope, head)
                ==> #[trigger] sub_blocks_open(parent, subs, scope, head),
    decreases subs.len(),
{
    let rest = subs.drop_last();
    if s < rest.len() {
        assert(rest[s] == subs[s]);
        lemma_sub_opens(parent, rest, s);
        assert forall|scope: Seq<char>, head: Seq<char>|
            sub_blocks_open(
                subs[s].keyword@,
                subs[s].sub_blocks@,
                scope,
                head,
            ) implies #[trigger] sub_blocks_open(parent, subs, scope, head) by {
            assert(sub_blocks_open(parent, rest, scope, head));
        }
    } else {
        assert(subs.last() == subs[s]);
    }
}

/// Law: inside a block, the keywords of its slots and of its sub-blocks open scopes,
/// and inside a sub-block those of its own.
pub proof fn declared_keywords_open_scopes(
    openers: SchemaOpeners,
    schema: Schema,
    b: int,
    has_equals: bool,
)
    requires
        openers.describes(schema),
        0 <= b < schema.blocks@.len(),
    ensures
        ({
            let block = schema.blocks@[b];
            &&& forall|s: int|
                0 <= s < block.module_slots@.len() ==> openers.opens(
                    Some(block.name@),
                    (#[trigger] block.module_slots@[s]).keyword@,
                    has_equals,
                )
            &&& forall|s: int|
                0 <= s < block.sub_blocks@.len() ==> openers.opens(
                    Some(block.name@),
                    (#[trigger] block.sub_blocks@[s]).keyword@,
                    has_equals,
                )
            &&& forall|s: int, t: int|
                #![trigger block.sub_blocks@[s].sub_blocks@[t]]
                0 <= s < block.sub_blocks@.len() && 0 <= t < block.sub_blocks@[s].sub_blocks@.len()
                    ==> openers.opens(
                    Some(block.sub_blocks@[s].keyword@),
                    block.sub_blocks@[s].sub_blocks@[t].keyword@,
                    has_equals,
                )
        }),
{
    let block = schema.blocks@[b];
    let subs = block.sub_blocks@;
    assert forall|s: int| 0 <= s < block.module_slots@.len() implies openers.opens(
        Some(block.name@),
        (#[trigger] block.module_slots@[s]).keyword@,
        has_equals,
    ) by {
        let head = block.module_slots@[s].keyword@;
        assert(has_slot(block.module_slots@, head));
        assert(block_opens(schema.blocks@[b], block.name@, head));
        assert(schema_opens(schema, block.name@, head));
    }
    assert forall|s: int| 0 <= s < subs.len() implies openers.opens(
        Some(block.name@),
        (#[trigger] subs[s]).keyword@,
        has_equals,
    ) by {
        lemma_sub_opens(block.name@, subs, s);
        assert(block_opens(schema.blocks@[b], block.name@, subs[s].keyword@));
        assert(schema_opens(schema, block.name@, subs[s].keyword@));
    }
    assert forall|s: int, t: int|
        #![trigger subs[s].sub_blocks@[t]]
        0 <= s < subs.len() && 0 <= t < subs[s].sub_blocks@.len() implies openers.opens(
        Some(subs[s].keyword@),
        subs[s].sub_blocks@[t].keyword@,
        has_equals,
    ) by {
        let head = subs[s].sub_blocks@[t].keyword@;
        lemma_sub_opens(block.name@, subs, s);
        lemma_sub_opens(subs[s].keyword@, subs[s].sub_blocks@, t);
        assert(sub_blocks_open(block.name@, subs, subs[s].keyword@, head));
        assert(block_opens(schema.blocks@[b], subs[s].keyword@, head));
        assert(schema_opens(schema, subs[s].keyword@, head));
    }
}

/// Law: inside a module, that is under the keyword of a slot, the sub-blocks of any
/// module type open scopes.
pub proof fn modules_open_their_sub_blocks(
    openers: SchemaOpeners,
    schema: Schema,
    b: int,
    s: int,
    m: int,
    t: int,
    has_equals: bool,
)
    requires
        openers.describes(schema),
        0 <= b < schema.blocks@.len(),
        0 <= s < schema.blocks@[b].module_slots@.len(),
        0 <= m < schema.modules@.len(),
        0 <= t < schema.modules@[m].sub_blocks@.len(),
    ensures
        openers.opens(
            Some(schema.blocks@[b].module_slots@[s].keyword@),
            schema.modules@[m].sub_blocks@[t].keyword@,
            has_equals,
        ),
{
    let slot = schema.blocks@[b].module_slots@[s].keyword@;
    let module = schema.modules@[m];
    let head = module.sub_blocks@[t].keyword@;
    assert(has_slot(schema.blocks@[b].module_slots@, slot));
    assert(is_slot_keyword(schema.blocks@, slot));
    lemma_sub_opens(slot, module.sub_blocks@, t);
    assert(module_opens(schema.blocks@, schema.modules@[m], slot, head));
    assert(schema_opens(schema, slot, head));
}

/// Law: nothing opens a scope that the schema does not declare there, but for the
/// keywords that do so everywhere; and nothing does outside of all blocks.
pub proof fn other_keywords_open_nothing(
    openers: SchemaOpeners,
    schema: Schema,
    scope: Seq<char>,
    head: Seq<char>,
    has_equals: bool,
)
    requires
        openers.describes(schema),
    ensures
        openers.opens(Some(scope), head, has_equals) ==> curated(head) || schema_opens(
            schema,
            scope,
            head,
        ),
        curated(head) ==> openers.opens(Some(scope), head, has_equals),
        !openers.opens(None, head, has_equals),
{
}

/// Law: a line at the top of a file begins a block, unless its keyword is one of a
/// block that has no end of its own.
pub proof fn blocks_without_ends_are_lines(openers: SchemaOpeners, schema: Schema, head: Seq<char>)
    requires
        openers.describes(schema),
    ensures
        openers.opens_file(head) <==> forall|b: int|
            0 <= b < schema.blocks@.len() && (#[trigger] schema.blocks@[b]).name@ == head
                ==> schema.blocks@[b].terminated,
{
    let blocks = schema.blocks@;
    if !openers.opens_file(head) {
        let b = choose|b: int|
            0 <= b < blocks.len() && !(#[trigger] blocks[b]).terminated && blocks[b].name@ == head;
        assert(blocks[b].name@ == head);
    } else {
        assert forall|b: int|
            0 <= b < blocks.len() && (#[trigger] blocks[b]).name@ == head implies blocks[b].terminated by {
            if !blocks[b].terminated {
                assert(is_inline_block(blocks, head));
            }
        }
    }
}

// ---------------------------------------------------------------------------
// Archives
// ---------------------------------------------------------------------------
/// Four bytes of an archive are a number, the high byte first.
pub open spec fn is_number(bytes: Seq<u8>, pos: int, n: int) -> bool {
    &&& 0 <= pos
    &&& pos + 4 <= bytes.len()
    &&& n == ((bytes[pos] * 256 + bytes[pos + 1]) * 256 + bytes[pos + 2]) * 256 + bytes[pos + 3]
}

/// An entry of an archive stands at a place: where its content is, how long it is, and
/// its name with a zero behind it.
pub open spec fn entry_stands(
    bytes: Seq<u8>,
    pos: int,
    offset: int,
    size: int,
    name: Seq<u8>,
) -> bool {
    &&& is_number(bytes, pos, offset)
    &&& is_number(bytes, pos + 4, size)
    &&& pos + 8 + name.len() < bytes.len()
    &&& bytes.subrange(pos + 8, pos + 8 + name.len()) == name
    &&& bytes[pos + 8 + name.len()] == 0
    &&& forall|i: int| 0 <= i < name.len() ==> (#[trigger] name[i]) != 0
}

/// An entry as it is written in an archive.
pub struct Written {
    pub offset: int,
    pub size: int,
    pub name: Seq<u8>,
}

/// The place behind the first `n` entries that are written from a place on.
pub open spec fn place_after(entries: Seq<Written>, pos: int, n: int) -> int
    decreases n,
{
    if n <= 0 {
        pos
    } else {
        place_after(entries, pos, n - 1) + 8 + entries[n - 1].name.len() + 1
    }
}

proof fn lemma_zero(bytes: Seq<u8>, pos: int, end: int)
    requires
        0 <= pos <= end < bytes.len(),
        bytes[end] == 0,
        forall|i: int| pos <= i < end ==> (#[trigger] bytes[i]) != 0,
    ensures
        zero_from(bytes, pos) == end,
    decreases end - pos,
{
    if pos < end {
        assert(bytes[pos] != 0);
        lemma_zero(bytes, pos + 1, end);
    }
}

proof fn lemma_entry(bytes: Seq<u8>, pos: int, entry: Written)
    requires
        entry_stands(bytes, pos, entry.offset, entry.size, entry.name),
    ensures
        entry_at(bytes, pos) == Some(
            (
                BigEntryView {
                    name: slashed(lossy_text(entry.name)),
                    offset: entry.offset,
                    size: entry.size,
                },
                pos + 8 + entry.name.len() + 1,
            ),
        ),
{
    let end = pos + 8 + entry.name.len();
    assert forall|i: int| pos + 8 <= i < end implies (#[trigger] bytes[i]) != 0 by {
        assert(entry.name[i - pos - 8] == bytes.subrange(pos + 8, end)[i - pos - 8]);
    }
    lemma_zero(bytes, pos + 8, end);
}

proof fn lemma_entries(
    bytes: Seq<u8>,
    entries: Seq<Written>,
    pos: int,
    i: int,
    known: Seq<BigEntryView>,
)
    requires
        0 <= i <= entries.len(),
        forall|j: int|
            0 <= j < entries.len() ==> entry_stands(
                bytes,
                place_after(entries, pos, j),
                (#[trigger] entries[j]).offset,
                entries[j].size,
                entries[j].name,
            ),
    ensures
        ({
            let all = entries_from(
                bytes,
                place_after(entries, pos, i),
                (entries.len() - i) as nat,
                known,
            );
            &&& all is Ok
            &&& all->Ok_0.len() == known.len() + entries.len() - i
            &&& forall|j: int|
                0 <= j < known.len() ==> (#[trigger] all->Ok_0[j]) == known[j]
            &&& forall|j: int|
                #![trigger entries[j]]
                i <= j < entries.len() ==> {
                    let entry = all->Ok_0[known.len() + j - i];
                    &&& entry.name == slashed(lossy_text(entries[j].name))
                    &&& entry.offset == entries[j].offset
                    &&& entry.size == entries[j].size
                }
        }),
    decreases entries.len() - i,
{
    if i < entries.len() {
        let at = place_after(entries, pos, i);
        lemma_entry(bytes, at, entries[i]);
        let (entry, next) = entry_at(bytes, at)->0;
        assert(place_after(entries, pos, i + 1) == next);
        lemma_entries(bytes, entries, pos, i + 1, known.push(entry));
        let all = entries_from(bytes, at, (entries.len() - i) as nat, known);
        assert forall|j: int| 0 <= j < known.len() implies (#[trigger] all->Ok_0[j])
            == known[j] by {
            assert(known.push(entry)[j] == known[j]);
        }
        assert(all->Ok_0[known.len() as int] == known.push(entry)[known.len() as int]);
        assert forall|j: int|
            #![trigger entries[j]]
            i <= j < entries.len() implies {
            let entry = all->Ok_0[known.len() + j - i];
            &&& entry.name == slashed(lossy_text(entries[j].name))
            &&& entry.offset == entries[j].offset
            &&& entry.size == entries[j].size
        } by {
            if j > i {
                assert(known.len() + j - i == known.push(entry).len() + j - (i + 1));
            }
        }
    }
}

/// Law: the directory of an archive holds the entries that are written in it, in
/// order: each with its place, its length and its name, with `/` in it for `\`.
pub proof fn written_entries_are_read(bytes: Seq<u8>, entries: Seq<Written>)
    requires
        bytes.len() >= 16,
        bytes[0] == 'B' as u8,
        bytes[1] == 'I' as u8,
        bytes[2] == 'G' as u8,
        bytes[3] == 'F' as u8,
        is_number(bytes, 8, entries.len() as int),
        forall|j: int|
            0 <= j < entries.len() ==> entry_stands(
                bytes,
                place_after(entries, 16, j),
                (#[trigger] entries[j]).offset,
                entries[j].size,
                entries[j].name,
            ),
    ensures
        directory(bytes) is Ok,
        directory(bytes)->Ok_0.len() == entries.len(),
        forall|j: int|
            #![trigger entries[j]]
            0 <= j < entries.len() ==> directory(bytes)->Ok_0[j].name == slashed(
                lossy_text(entries[j].name),
            ) && directory(bytes)->Ok_0[j].offset == entries[j].offset
                && directory(bytes)->Ok_0[j].size == entries[j].size,
{
    lemma_entries(bytes, entries, 16, 0, Seq::empty());
    assert(be32(bytes, 8) == entries.len());
    let all = directory(bytes)->Ok_0;
    assert forall|j: int|
        #![trigger entries[j]]
        0 <= j < entries.len() implies all[j].name == slashed(lossy_text(entries[j].name))
        && all[j].offset == entries[j].offset && all[j].size == entries[j].size by {
        assert(0 + j - 0 == j);
    }
}

/// Law: bytes that do not begin with the mark of an archive are none.
pub proof fn other_bytes_are_no_archive(bytes: Seq<u8>)
    requires
        bytes.len() >= 4,
        bytes[0] != 'B' as u8 || bytes[1] != 'I' as u8 || bytes[2] != 'G' as u8 || bytes[3]
            != 'F' as u8,
    ensures
        directory(bytes) == Err::<Seq<BigEntryView>, BigError>(BigError::NotBig),
{
}

/// Law: the kind of a file goes by its extension, in any case.
pub proof fn extensions_tell_kinds(extension: Seq<char>)
    ensures
        kind_of(extension) == Some(InputKind::Big) <==> lower(extension) == lower("big"@),
        kind_of(extension) == Some(InputKind::Ini) <==> lower(extension) == lower("ini"@),
        kind_of(extension) == Some(InputKind::Model) <==> lower(extension) == lower("w3d"@),
        kind_of(extension) == Some(InputKind::Audio) <==> lower(extension) == lower("wav"@)
            || lower(extension) == lower("mp3"@),
        kind_of(extension) == Some(InputKind::Texture) <==> lower(extension) == lower("tga"@)
            || lower(extension) == lower("dds"@),
{
    reveal_strlit("big");
    reveal_strlit("ini");
    reveal_strlit("w3d");
    reveal_strlit("wav");
    reveal_strlit("mp3");
    reveal_strlit("tga");
    reveal_strlit("dds");
    let (b, i, m, w, p, t, d) = (
        lower("big"@),
        lower("ini"@),
        lower("w3d"@),
        lower("wav"@),
        lower("mp3"@),
        lower("tga"@),
        lower("dds"@),
    );
    assert(b[0] == 'b' && i[0] == 'i' && m[0] == 'w' && w[0] == 'w' && p[0] == 'm' && t[0] == 't'
        && d[0] == 'd');
    assert(m[1] == '3' && w[1] == 'a');
}

// ---------------------------------------------------------------------------
// String tables
// ---------------------------------------------------------------------------
/// A text without line breaks.
pub open spec fn is_one_line(s: Seq<char>) -> bool {
    forall|i: int| 0 <= i < s.len() ==> (#[trigger] s[i]) != '\n'
}

pub proof fn lemma_find(s: Seq<char>, c: char, i: int, k: int)
    requires
        0 <= i <= k < s.len(),
        s[k] == c,
        forall|j: int| i <= j < k ==> (#[trigger] s[j]) != c,
    ensures
        find_char(s, c, i) == k,
    decreases k - i,
{
    if i < k {
        assert(s[i] != c);
        lemma_find(s, c, i + 1, k);
    }
}

proof fn lemma_find_shift(a: Seq<char>, b: Seq<char>, c: char, i: int)
    requires
        0 <= i <= b.len(),
    ensures
        find_char(a + b, c, a.len() + i) == a.len() + find_char(b, c, i),
        i <= find_char(b, c, i) <= b.len(),
    decreases b.len() - i,
{
    if i < b.len() {
        assert((a + b)[a.len() + i] == b[i]);
        if b[i] != c {
            lemma_find_shift(a, b, c, i + 1);
        }
    }
}

proof fn lemma_table_shift(a: Seq<char>, b: Seq<char>, i: int, state: TableView)
    requires
        0 <= i <= b.len(),
    ensures
        table_from(a + b, a.len() + i, state) == table_from(b, i, state),
    decreases b.len() - i,
{
    lemma_find_shift(a, b, '\n', i);
    let end = find_char(b, '\n', i);
    if end < b.len() {
        assert((a + b).subrange(a.len() + i, a.len() + end) =~= b.subrange(i, end));
        lemma_table_shift(a, b, end + 1, table_line(state, b.subrange(i, end)));
    } else {
        assert((a + b).skip(a.len() + i) =~= b.skip(i));
    }
}

proof fn lemma_table_line(line: Seq<char>, rest: Seq<char>, state: TableView)
    requires
        is_one_line(line),
    ensures
        table_from(line + seq!['\n'] + rest, 0, state) == table_from(
            rest,
            0,
            table_line(state, line),
        ),
{
    let front = line + seq!['\n'];
    let s = front + rest;
    let n = line.len() as int;
    assert(s[n] == '\n');
    assert forall|j: int| 0 <= j < n implies (#[trigger] s[j]) != '\n' by {
        assert(s[j] == line[j]);
    }
    lemma_find(s, '\n', 0, n);
    assert(s.subrange(0, n) =~= line);
    lemma_table_shift(front, rest, 0, table_line(state, line));
}

proof fn lemma_table_adds(s: Seq<char>, i: int, keys: Seq<Seq<char>>, expects: bool)
    requires
        0 <= i <= s.len(),
    ensures
        table_from(s, i, TableView { keys, expects }).keys == keys + table_from(
            s,
            i,
            TableView { keys: Seq::empty(), expects },
        ).keys,
        table_from(s, i, TableView { keys, expects }).expects == table_from(
            s,
            i,
            TableView { keys: Seq::empty(), expects },
        ).expects,
    decreases s.len() - i,
{
    let none = Seq::<Seq<char>>::empty();
    lemma_find_shift(none_text(), s, '\n', i);
    let end = find_char(s, '\n', i);
    let full = TableView { keys, expects };
    let bare = TableView { keys: none, expects };
    if end < s.len() {
        let line = s.subrange(i, end);
        let one = table_line(bare, line);
        let two = table_line(full, line);
        assert(two.keys =~= keys + one.keys);
        lemma_table_adds(s, end + 1, one.keys, one.expects);
        lemma_table_adds(s, end + 1, two.keys, two.expects);
        let rest = table_from(s, end + 1, TableView { keys: none, expects: one.expects }).keys;
        assert(keys + one.keys + rest =~= keys + (one.keys + rest));
    } else {
        let line = s.skip(i);
        assert(table_line(full, line).keys =~= keys + table_line(bare, line).keys);
    }
}

spec fn none_text() -> Seq<char> {
    Seq::empty()
}

/// A line of a string table that says something: it is not empty, no comment and not
/// the end of an entry.
pub open spec fn is_text_line(line: Seq<char>) -> bool {
    &&& is_one_line(line)
    &&& trimmed(line).len() > 0
    &&& trimmed(line)[0] != ';'
    &&& lower(trimmed(line)) != lower("END"@)
}

/// Law: the first line of each entry of a string table is a key, up to the `END` of
/// the entry, in any case; the lines between are none.
pub proof fn entries_of_tables_are_read(
    key: Seq<char>,
    value: Seq<char>,
    end: Seq<char>,
    rest: Seq<char>,
)
    requires
        is_text_line(key),
        is_text_line(value),
        is_one_line(end),
        lower(trimmed(end)) == lower("END"@),
    ensures
        str_keys(
            key + seq!['\n'] + (value + seq!['\n'] + (end + seq!['\n'] + rest)),
        ) == seq![trimmed(key)] + str_keys(rest),
{
    reveal_strlit("END");
    let start = TableView { keys: Seq::empty(), expects: true };
    let third = end + seq!['\n'] + rest;
    let second = value + seq!['\n'] + third;
    let one = table_line(start, key);
    let two = table_line(one, value);
    let three = table_line(two, end);
    lemma_table_line(key, second, start);
    lemma_table_line(value, third, one);
    lemma_table_line(end, rest, two);
    assert(lower(trimmed(end)).len() == 3);
    assert(trimmed(end)[0] != ';') by {
        assert(lower("END"@)[0] == 'e');
        assert(lower(trimmed(end))[0] == lower_char(trimmed(end)[0]));
        letters_have_two_cases(trimmed(end)[0]);
    }
    assert(three.keys =~= seq![trimmed(key)]);
    assert(three.expects);
    if find_char(rest, '\n', 0) >= 0 {
        lemma_table_adds(rest, 0, three.keys, true);
    } else {
        lemma_find_shift(none_text(), rest, '\n', 0);
    }
}

// ---------------------------------------------------------------------------
// Reports
// ---------------------------------------------------------------------------
/// Law: an error fails at every threshold, a warning at that of warnings and hints, a
/// hint at that of hints alone.
pub proof fn thresholds_go_by_severity(fail_on: FailOn)
    ensures
        is_failure(Severity::Error, fail_on),
        is_failure(Severity::Warning, fail_on) <==> fail_on != FailOn::Error,
        is_failure(Severity::Hint, fail_on) <==> fail_on == FailOn::Hint,
{
}

/// Law: each finding is counted once, under its severity.
pub proof fn findings_are_counted_once(severities: Seq<Severity>, n: nat)
    requires
        n <= severities.len(),
    ensures
        count_severity(severities, Severity::Error, n) + count_severity(
            severities,
            Severity::Warning,
            n,
        ) + count_severity(severities, Severity::Hint, n) == n,
        forall|severity: Severity|
            #[trigger] count_severity(severities, severity, n) > 0 <==> exists|i: int|
                0 <= i < n && #[trigger] severities[i] == severity,
    decreases n,
{
    if n > 0 {
        findings_are_counted_once(severities, (n - 1) as nat);
        assert forall|severity: Severity|
            #[trigger] count_severity(severities, severity, n) > 0 <==> exists|i: int|
                0 <= i < n && #[trigger] severities[i] == severity by {
            let before = count_severity(severities, severity, (n - 1) as nat);
            if before > 0 {
                let i = choose|i: int| 0 <= i < n - 1 && #[trigger] severities[i] == severity;
                assert(0 <= i < n && severities[i] == severity);
            }
            if severities[n - 1] != severity && before == 0 {
                assert(!exists|i: int| 0 <= i < n && #[trigger] severities[i] == severity);
            }
        }
    }
}

proof fn lemma_targets(args: Seq<Seq<char>>, i: int, state: ArgsView)
    requires
        0 <= i <= args.len(),
        forall|j: int|
            0 <= j < args.len() ==> (#[trigger] args[j]).len() > 0 && args[j][0] != '-',
        state.targets.len() + (args.len() - i) > 0,
    ensures
        args_from(args, i, state) == Ok::<ArgsView, ArgErrorView>(
            ArgsView { targets: state.targets + args.skip(i), ..state },
        ),
    decreases args.len() - i,
{
    if i < args.len() {
        reveal_strlit("--fail-on");
        reveal_strlit("--base-root");
        reveal_strlit("--stdin-filename");
        reveal_strlit("--json");
        reveal_strlit("-");
        let next = ArgsView { targets: state.targets.push(args[i]), ..state };
        assert(args[i][0] != '-');
        lemma_targets(args, i + 1, next);
        assert(state.targets.push(args[i]) + args.skip(i + 1) =~= state.targets + args.skip(i));
    } else {
        assert(state.targets + args.skip(i) =~= state.targets);
    }
}

/// Law: arguments that do not begin with `-` are what is checked, in their order; all
/// else is as by default.
pub proof fn plain_arguments_are_targets(args: Seq<Seq<char>>)
    requires
        args.len() > 0,
        forall|j: int|
            0 <= j < args.len() ==> (#[trigger] args[j]).len() > 0 && args[j][0] != '-',
    ensures
        ({
            let read = args_from(args, 0, default_args());
            &&& read is Ok
            &&& read->Ok_0.targets == args
            &&& !read->Ok_0.json
            &&& !read->Ok_0.stdin
            &&& read->Ok_0.fail_on == FailOn::Error
            &&& read->Ok_0.base_roots.len() == 0
        }),
{
    lemma_targets(args, 0, default_args());
    assert(Seq::<Seq<char>>::empty() + args.skip(0) =~= args);
}

/// Law: a threshold in front of the arguments is the one that counts.
pub proof fn thresholds_are_read(level: Seq<char>, args: Seq<Seq<char>>)
    requires
        args.len() > 0,
        forall|j: int|
            0 <= j < args.len() ==> (#[trigger] args[j]).len() > 0 && args[j][0] != '-',
    ensures
        ({
            let read = args_from(seq!["--fail-on"@, level] + args, 0, default_args());
            &&& level == "error"@ ==> read is Ok && read->Ok_0.fail_on == FailOn::Error
            &&& level == "warning"@ ==> read is Ok && read->Ok_0.fail_on == FailOn::Warning
            &&& level == "hint"@ ==> read is Ok && read->Ok_0.fail_on == FailOn::Hint
            &&& read is Ok ==> read->Ok_0.targets == args
            &&& read is Ok <==> level == "error"@ || level == "warning"@ || level == "hint"@
        }),
{
    reveal_strlit("error");
    reveal_strlit("warning");
    reveal_strlit("hint");
    let all = seq!["--fail-on"@, level] + args;
    assert("error"@[0] == 'e' && "warning"@[0] == 'w' && "hint"@[0] == 'h');
    assert(all[0] == "--fail-on"@);
    assert(all[1] == level);
    if let Some(fail_on) = level_of(level) {
        let state = ArgsView { fail_on, ..default_args() };
        lemma_args_shift(seq!["--fail-on"@, level], args, 0, state);
        lemma_targets(args, 0, state);
        assert(Seq::<Seq<char>>::empty() + args.skip(0) =~= args);
        assert(args_from(all, 0, default_args()) == args_from(all, 2, state));
    }
}

proof fn lemma_args_shift(
    a: Seq<Seq<char>>,
    b: Seq<Seq<char>>,
    i: int,
    state: ArgsView,
)
    requires
        0 <= i <= b.len(),
        forall|j: int| 0 <= j < b.len() ==> (#[trigger] b[j]).len() > 0 && b[j][0] != '-',
    ensures
        args_from(a + b, a.len() + i, state) == args_from(b, i, state),
    decreases b.len() - i,
{
    if i < b.len() {
        reveal_strlit("--fail-on");
        reveal_strlit("--base-root");
        reveal_strlit("--stdin-filename");
        reveal_strlit("--json");
        reveal_strlit("-");
        assert((a + b)[a.len() + i] == b[i]);
        assert(b[i][0] != '-');
        let next = ArgsView { targets: state.targets.push(b[i]), ..state };
        lemma_args_shift(a, b, i + 1, next);
    }
}

// ---------------------------------------------------------------------------
// Settings
// ---------------------------------------------------------------------------
/// Law: the roots that count are those that are not blank.
pub proof fn blank_roots_do_not_count(roots: Seq<Seq<char>>, root: Seq<char>)
    ensures
        real_roots(roots).contains(root) <==> roots.contains(root) && trimmed(root).len() > 0,
    decreases roots.len(),
{
    if roots.len() > 0 {
        let rest = roots.drop_last();
        let (before, all) = (real_roots(rest), real_roots(roots));
        blank_roots_do_not_count(rest, root);
        if before.contains(root) {
            let i = choose|i: int| 0 <= i < before.len() && before[i] == root;
            assert(all[i] == root);
        }
        if rest.contains(root) {
            let i = choose|i: int| 0 <= i < rest.len() && rest[i] == root;
            assert(roots[i] == root);
        }
        if all.contains(root) && !before.contains(root) {
            let i = choose|i: int| 0 <= i < all.len() && all[i] == root;
            if i < before.len() {
                assert(before[i] == root);
            }
            assert(roots[roots.len() - 1] == root);
        }
        if roots.contains(root) && !rest.contains(root) {
            let i = choose|i: int| 0 <= i < roots.len() && roots[i] == root;
            if i < rest.len() {
                assert(rest[i] == root);
            }
            if trimmed(root).len() > 0 {
                assert(all[before.len() as int] == root);
            }
        }
    }
}

/// Law: progress begins at nothing, ends at a hundred, and never goes back.
pub proof fn progress_goes_forward(done: int, more: int, total: int)
    requires
        0 <= done <= more <= total,
        total > 0,
    ensures
        percent_of(0, total) == 0,
        percent_of(total, total) == 100,
        percent_of(done, total) <= percent_of(more, total),
        0 <= percent_of(done, total) <= 100,
{
    assert(0int * 100 / total == 0) by (nonlinear_arith)
        requires
            total > 0,
    ;
    assert(total * 100 / total == 100) by (nonlinear_arith)
        requires
            total > 0,
    ;
    assert(done * 100 / total <= more * 100 / total) by (nonlinear_arith)
        requires
            0 <= done <= more,
            total > 0,
    ;
    assert(0 <= done * 100 / total <= 100) by (nonlinear_arith)
        requires
            0 <= done <= total,
            total > 0,
    ;
}

// ---------------------------------------------------------------------------
// Reference copies
// ---------------------------------------------------------------------------
/// A top-level element is a block of a name, in any case.
pub open spec fn is_block_named(child: ChildView, name: Seq<char>) -> bool {
    &&& child.element is Node
    &&& child.element->Node_0.kind == SyntaxKind::BLOCK
    &&& child.element->Node_0.second_word() is Some
    &&& lower(child.element->Node_0.second_word()->0.text) == lower(name)
}

proof fn lemma_block_text(children: Seq<ChildView>, name: Seq<char>, i: int, c: int)
    requires
        0 <= i <= c < children.len(),
        is_block_named(children[c], name),
        forall|d: int| i <= d < c ==> !is_block_named(#[trigger] children[d], name),
    ensures
        block_text(children, name, i) == Some(
            elements_text(children[c].element->Node_0.children),
        ),
    decreases c - i,
{
    if i < c {
        assert(!is_block_named(children[i], name));
        lemma_block_text(children, name, i + 1, c);
    }
}

/// Law: the copy of a definition is the text of the first block of its name.
pub proof fn copies_are_of_the_named_block(
    children: Seq<ChildView>,
    name: Seq<char>,
    c: int,
    block: NodeView,
    n: int,
)
    requires
        0 <= c < children.len(),
        children[c].element == ElementView::Node(block),
        block.kind == SyntaxKind::BLOCK,
        name_at(block, n),
        lower(leaf_at(block, n).text) == lower(name),
        forall|d: int| 0 <= d < c ==> !is_block_named(#[trigger] children[d], name),
    ensures
        block_text(children, name, 0) == Some(elements_text(block.children)),
{
    second_word_is_the_name(block, n);
    lemma_block_text(children, name, 0, c);
}

} // verus!
