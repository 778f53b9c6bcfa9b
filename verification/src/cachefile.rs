//! Names of index cache files, which of them to drop, and string tables.

use vstd::prelude::*;
use vstd::string::*;

use crate::names::{string_from, trim_chars, trimmed};
use crate::numbers::{
    decimal, is_digit, lemma_decimal_reads_back, lemma_digits_value_bounds, parse_u32, to_decimal,
    u32_value,
};
use crate::scan::INDEX_CACHE_VERSION;
use crate::sorting::{indices, key_views, reordered, sort_indices, sorted_order, KeyView, SortKey};
use crate::text::{
    cat2, cat5, chars_of, find_char, same, same_ignoring_case, split_first, split_once, string_views,
};

verus! {

/// How many caches of the current version are kept.
pub const INDEX_CACHE_RETAINED: usize = 4;

/// How long a cache may lie unused, in nanoseconds: thirty days.
pub const INDEX_CACHE_MAX_AGE: u128 = 2_592_000_000_000_000;

// ---------------------------------------------------------------------------
// Names
// ---------------------------------------------------------------------------
/// A hexadecimal digit, in lower case.
pub open spec fn is_hex(c: char) -> bool {
    ('0' <= c && c <= '9') || ('a' <= c && c <= 'f')
}

fn char_is_hex(c: char) -> (yes: bool)
    ensures
        yes == is_hex(c),
{
    ('0' <= c && c <= '9') || ('a' <= c && c <= 'f')
}

/// Whether a text is sixteen hexadecimal digits.
pub open spec fn is_hash(s: Seq<char>) -> bool {
    s.len() == 16 && forall|i: int| 0 <= i < s.len() ==> is_hex(#[trigger] s[i])
}

/// What stands between a prefix and a suffix.
pub open spec fn between(s: Seq<char>, prefix: Seq<char>, suffix: Seq<char>) -> Option<Seq<char>> {
    if s.len() >= prefix.len() + suffix.len() && s.take(prefix.len() as int) == prefix && s.skip(
        s.len() - suffix.len(),
    ) == suffix {
        Some(s.subrange(prefix.len() as int, s.len() - suffix.len()))
    } else {
        None
    }
}

/// The version in the name of an index cache file, `index-v<version>-<hash>.json`
/// with a version in plain decimal and a hash of sixteen hexadecimal digits, as
/// such names are written.
pub open spec fn cache_version(name: Seq<char>) -> Option<int> {
    match between(name, "index-v"@, ".json"@) {
        None => None,
        Some(rest) => match split_first(rest, '-') {
            None => None,
            Some((version, hash)) => match u32_value(version) {
                Some(number) => if is_hash(hash) && version == decimal(number as nat) {
                    Some(number)
                } else {
                    None
                },
                None => None,
            },
        },
    }
}

fn holds_at(chars: &Vec<char>, at: usize, part: &Vec<char>) -> (yes: bool)
    requires
        at + part.len() <= chars.len(),
    ensures
        yes == (chars@.subrange(at as int, at + part.len()) == part@),
{
    let mut i: usize = 0;
    while i < part.len()
        invariant
            i <= part.len(),
            at + part.len() <= chars.len(),
            forall|j: int| 0 <= j < i ==> chars[at + j] == #[trigger] part[j],
        decreases part.len() - i,
    {
        if chars[at + i] != part[i] {
            assert(chars@.subrange(at as int, at + part.len())[i as int] != part@[i as int]);
            return false;
        }
        i += 1;
    }
    assert(chars@.subrange(at as int, at + part.len()) =~= part@);
    true
}

fn strip(s: &str, prefix: &str, suffix: &str) -> (out: Option<String>)
    ensures
        match out {
            Some(rest) => between(s@, prefix@, suffix@) == Some(rest@),
            None => between(s@, prefix@, suffix@) is None,
        },
{
    let chars = chars_of(s);
    let front = chars_of(prefix);
    let back = chars_of(suffix);
    if front.len() > chars.len() || back.len() > chars.len() - front.len() {
        return None;
    }
    let end: usize = chars.len() - back.len();
    proof {
        assert(s@.take(front@.len() as int) =~= s@.subrange(0, front@.len() as int));
        assert(s@.skip(end as int) =~= s@.subrange(end as int, s@.len() as int));
    }
    if holds_at(&chars, 0, &front) && holds_at(&chars, end, &back) {
        Some(string_from(&chars, front.len(), end))
    } else {
        None
    }
}

fn check_hash(s: &str) -> (yes: bool)
    ensures
        yes == is_hash(s@),
{
    let chars = chars_of(s);
    if chars.len() != 16 {
        return false;
    }
    let mut i: usize = 0;
    while i < chars.len()
        invariant
            i <= chars.len(),
            chars@ == s@,
            forall|j: int| 0 <= j < i ==> is_hex(#[trigger] s@[j]),
        decreases chars.len() - i,
    {
        if !char_is_hex(chars[i]) {
            assert(!is_hex(s@[i as int]));
            return false;
        }
        i += 1;
    }
    true
}

/// The version in the name of an index cache file, or `None` for any other file.
pub fn cache_file_version(name: &str) -> (out: Option<u32>)
    ensures
        match out {
            Some(version) => cache_version(name@) == Some(version as int),
            None => cache_version(name@) is None,
        },
{
    match strip(name, "index-v", ".json") {
        None => None,
        Some(rest) => match split_once(&rest, '-') {
            None => None,
            Some((version, hash)) => {
                match parse_u32(version) {
                    Some(number) => {
                        if check_hash(hash) && same(version, &to_decimal(number as u128)) {
                            Some(number)
                        } else {
                            None
                        }
                    },
                    None => None,
                }
            },
        },
    }
}

/// A digit in lower-case hexadecimal.
pub open spec fn hex_char(n: nat) -> char {
    if n < 10 {
        (48 + n) as char
    } else {
        (87 + n) as char
    }
}

/// The last `k` hexadecimal digits of a number.
pub open spec fn hex_digits(n: nat, k: nat) -> Seq<char>
    decreases k,
{
    if k == 0 {
        Seq::empty()
    } else {
        hex_digits(n / 16, (k - 1) as nat).push(hex_char(n % 16))
    }
}

fn hex_digit(n: u64) -> (c: char)
    requires
        n < 16,
    ensures
        c == hex_char(n as nat),
{
    match n {
        0 => '0',
        1 => '1',
        2 => '2',
        3 => '3',
        4 => '4',
        5 => '5',
        6 => '6',
        7 => '7',
        8 => '8',
        9 => '9',
        10 => 'a',
        11 => 'b',
        12 => 'c',
        13 => 'd',
        14 => 'e',
        _ => 'f',
    }
}

fn to_hex(n: u64, k: usize) -> (out: String)
    ensures
        out@ == hex_digits(n as nat, k as nat),
    decreases k,
{
    if k == 0 {
        let out = String::new();
        assert(out@ =~= Seq::<char>::empty());
        out
    } else {
        let mut out = to_hex(n / 16, k - 1);
        out.push(hex_digit(n % 16));
        out
    }
}

/// The name of the cache file of a version for a hash.
pub open spec fn versioned_name(version: u32, hash: u64) -> Seq<char> {
    "index-v"@ + decimal(version as nat) + "-"@ + hex_digits(hash as nat, 16) + ".json"@
}

/// The name of the cache file for a hash.
pub open spec fn cache_name(hash: u64) -> Seq<char> {
    versioned_name(INDEX_CACHE_VERSION, hash)
}

/// The name of the cache file for a hash of the roots.
pub fn cache_file_name(hash: u64) -> (out: String)
    ensures
        out@ == cache_name(hash),
{
    cat5("index-v", &to_decimal(INDEX_CACHE_VERSION as u128), "-", &to_hex(hash, 16), ".json")
}

/// What the roots are hashed as: each with what it is a root of, in order.
pub open spec fn root_labels(workspace: Seq<Seq<char>>, base: Seq<Seq<char>>) -> Seq<Seq<char>> {
    workspace.map_values(|key: Seq<char>| "workspace:"@ + key) + base.map_values(
        |key: Seq<char>| "base:"@ + key,
    )
}

pub open spec fn text_keys(texts: Seq<Seq<char>>) -> Seq<KeyView> {
    texts.map_values(|text: Seq<char>| KeyView { text, rank: 0 })
}

/// What the roots are hashed as, in the order of the labels, so that the order
/// of the roots does not matter.
pub fn cache_roots(workspace: &Vec<String>, base: &Vec<String>) -> (out: Vec<String>)
    requires
        workspace.len() + base.len() <= usize::MAX,
    ensures
        ({
            let labels = root_labels(string_views(workspace@), string_views(base@));
            string_views(out@) == reordered(labels, sorted_order(text_keys(labels)))
        }),
{
    let ghost labels = root_labels(string_views(workspace@), string_views(base@));
    let mut keys: Vec<SortKey> = Vec::new();
    let mut i: usize = 0;
    while i < workspace.len() + base.len()
        invariant
            i <= workspace.len() + base.len() <= usize::MAX,
            labels == root_labels(string_views(workspace@), string_views(base@)),
            keys.len() == i,
            forall|j: int|
                0 <= j < i ==> (#[trigger] keys[j])@ == (KeyView { text: labels[j], rank: 0 }),
        decreases workspace.len() + base.len() - i,
    {
        let text = if i < workspace.len() {
            cat2("workspace:", &workspace[i])
        } else {
            cat2("base:", &base[i - workspace.len()])
        };
        keys.push(SortKey { text, rank: 0 });
        i += 1;
    }
    assert(key_views(keys@) =~= text_keys(labels));
    let order = sort_indices(&keys);
    let mut out: Vec<String> = Vec::new();
    let mut i: usize = 0;
    while i < order.len()
        invariant
            i <= order.len(),
            order.len() == keys.len(),
            forall|j: int| 0 <= j < order.len() ==> #[trigger] order[j] < keys.len(),
            out.len() == i,
            forall|j: int| 0 <= j < i ==> (#[trigger] out[j])@ == keys[order[j] as int].text@,
        decreases order.len() - i,
    {
        out.push(keys[order[i]].text.clone());
        i += 1;
    }
    proof {
        let ints = indices(order@);
        let sorted = reordered(labels, sorted_order(text_keys(labels)));
        assert forall|j: int| 0 <= j < out.len() implies #[trigger] string_views(out@)[j]
            == sorted[j] by {
            assert(ints[j] == order[j]);
            assert(keys[order[j] as int]@ == (KeyView { text: labels[order[j] as int], rank: 0 }));
        }
        assert(string_views(out@) =~= sorted);
    }
    out
}

// ---------------------------------------------------------------------------
// Pruning
// ---------------------------------------------------------------------------
/// A file in the cache directory: its name, when it was last modified in
/// nanoseconds, and whether it is the cache in use.
#[derive(Debug)]
pub struct CacheFile {
    pub name: String,
    pub modified: Option<u128>,
    pub in_use: bool,
}

/// Whether a file is a cache that may be dropped.
pub open spec fn is_candidate(file: CacheFile) -> bool {
    cache_version(file.name@) is Some && !file.in_use
}

/// Whether a cache was not used for too long.
pub open spec fn is_expired(file: CacheFile, now: u128) -> bool {
    file.modified matches Some(modified) && modified <= now && now - modified > INDEX_CACHE_MAX_AGE
}

/// Whether a cache is of no use whatever else is there.
pub open spec fn is_useless(file: CacheFile, now: u128) -> bool {
    is_candidate(file) && (cache_version(file.name@) != Some(INDEX_CACHE_VERSION as int)
        || is_expired(file, now))
}

/// Whether a cache competes with others to be kept.
pub open spec fn competes(file: CacheFile, now: u128) -> bool {
    is_candidate(file) && !is_useless(file, now)
}

/// When a file was last modified; one without a time counts as the oldest.
pub open spec fn age_rank(file: CacheFile) -> int {
    match file.modified {
        Some(modified) => modified as int,
        None => -1,
    }
}

/// Whether cache `j` is kept rather than cache `i`: it is newer, or listed first
/// of two of the same time.
pub open spec fn goes_before(files: Seq<CacheFile>, now: u128, j: int, i: int) -> bool {
    competes(files[j], now) && j != i && (age_rank(files[j]) > age_rank(files[i]) || (age_rank(
        files[j],
    ) == age_rank(files[i]) && j < i))
}

/// How many of the first `n` caches are kept rather than cache `i`.
pub open spec fn count_before(files: Seq<CacheFile>, now: u128, i: int, n: nat) -> nat
    decreases n,
{
    if n == 0 {
        0
    } else {
        count_before(files, now, i, (n - 1) as nat) + if goes_before(files, now, n - 1, i) {
            1nat
        } else {
            0nat
        }
    }
}

/// How many competing caches are kept. The cache in use takes one of the places.
pub open spec fn places(in_use: bool) -> nat {
    if in_use {
        (INDEX_CACHE_RETAINED - 1) as nat
    } else {
        INDEX_CACHE_RETAINED as nat
    }
}

/// Whether a file is dropped: a useless cache, or one with enough better ones.
pub open spec fn is_dropped(files: Seq<CacheFile>, now: u128, in_use: bool, i: int) -> bool {
    is_useless(files[i], now) || (competes(files[i], now) && count_before(
        files,
        now,
        i,
        files.len(),
    ) >= places(in_use))
}

/// What becomes of a file.
#[derive(Debug, Clone, Copy, PartialEq, Eq, Structural)]
enum Fate {
    Ignored,
    Useless,
    Competing,
}

fn fate(file: &CacheFile, now: u128) -> (out: Fate)
    ensures
        out == if is_useless(*file, now) {
            Fate::Useless
        } else if competes(*file, now) {
            Fate::Competing
        } else {
            Fate::Ignored
        },
{
    if file.in_use {
        return Fate::Ignored;
    }
    match cache_file_version(&file.name) {
        None => Fate::Ignored,
        Some(version) => {
            let expired = match file.modified {
                Some(modified) => modified <= now && now - modified > INDEX_CACHE_MAX_AGE,
                None => false,
            };
            if version != INDEX_CACHE_VERSION || expired {
                Fate::Useless
            } else {
                Fate::Competing
            }
        },
    }
}

fn is_newer(a: Option<u128>, b: Option<u128>, tie: bool) -> (yes: bool)
    ensures
        ({
            let x: int = match a {
                Some(modified) => modified as int,
                None => -1,
            };
            let y: int = match b {
                Some(modified) => modified as int,
                None => -1,
            };
            yes == (x > y || (x == y && tie))
        }),
{
    match (a, b) {
        (Some(x), Some(y)) => x > y || (x == y && tie),
        (Some(_), None) => true,
        (None, Some(_)) => false,
        (None, None) => tie,
    }
}

/// Which files of the cache directory to drop: caches of other versions, caches
/// that were not used for too long, and the oldest of the rest once enough are
/// kept. `in_use` says whether a cache is in use; it is never dropped and takes
/// one of the places. Files that are no index caches are never dropped.
pub fn prune_plan(files: &Vec<CacheFile>, now: u128, in_use: bool) -> (out: Vec<bool>)
    ensures
        out.len() == files.len(),
        forall|i: int|
            0 <= i < out.len() ==> #[trigger] out[i] == is_dropped(files@, now, in_use, i),
{
    let mut fates: Vec<Fate> = Vec::new();
    let mut i: usize = 0;
    while i < files.len()
        invariant
            i <= files.len(),
            fates.len() == i,
            forall|j: int|
                0 <= j < i ==> #[trigger] fates[j] == if is_useless(files[j], now) {
                    Fate::Useless
                } else if competes(files[j], now) {
                    Fate::Competing
                } else {
                    Fate::Ignored
                },
        decreases files.len() - i,
    {
        fates.push(fate(&files[i], now));
        i += 1;
    }
    let kept: usize = if in_use {
        INDEX_CACHE_RETAINED - 1
    } else {
        INDEX_CACHE_RETAINED
    };
    let mut out: Vec<bool> = Vec::new();
    let mut i: usize = 0;
    while i < files.len()
        invariant
            i <= files.len(),
            fates.len() == files.len(),
            kept == places(in_use),
            forall|j: int|
                0 <= j < files.len() ==> #[trigger] fates[j] == if is_useless(files[j], now) {
                    Fate::Useless
                } else if competes(files[j], now) {
                    Fate::Competing
                } else {
                    Fate::Ignored
                },
            out.len() == i,
            forall|j: int|
                0 <= j < i ==> #[trigger] out[j] == is_dropped(files@, now, in_use, j),
        decreases files.len() - i,
    {
        let mut better: usize = 0;
        let mut j: usize = 0;
        while j < files.len()
            invariant
                j <= files.len(),
                i < files.len(),
                fates.len() == files.len(),
                forall|j: int|
                    0 <= j < files.len() ==> #[trigger] fates[j] == if is_useless(files[j], now) {
                        Fate::Useless
                    } else if competes(files[j], now) {
                        Fate::Competing
                    } else {
                        Fate::Ignored
                    },
                better == count_before(files@, now, i as int, j as nat),
                better <= j,
            decreases files.len() - j,
        {
            if fates[j] == Fate::Competing && j != i && is_newer(
                files[j].modified,
                files[i].modified,
                j < i,
            ) {
                better += 1;
            }
            j += 1;
        }
        out.push(
            match fates[i] {
                Fate::Useless => true,
                Fate::Competing => better >= kept,
                Fate::Ignored => false,
            },
        );
        i += 1;
    }
    out
}

// ---------------------------------------------------------------------------
// String tables
// ---------------------------------------------------------------------------
/// What was read of a string table: the keys, and whether a key comes next.
#[verifier::ext_equal]
pub struct TableView {
    pub keys: Seq<Seq<char>>,
    pub expects: bool,
}

/// A string table after one more line: blank lines and comments are skipped,
/// `END` ends an item, and the first other line of an item is its key.
pub open spec fn table_line(state: TableView, line: Seq<char>) -> TableView {
    let text = trimmed(line);
    if text.len() == 0 || text[0] == ';' {
        state
    } else if same_ignoring_case(text, "END"@) {
        TableView { expects: true, ..state }
    } else if state.expects {
        TableView { keys: state.keys.push(text), expects: false }
    } else {
        state
    }
}

/// A string table from character `start` on, a line at a time.
pub open spec fn table_from(s: Seq<char>, start: int, state: TableView) -> TableView
    decreases s.len() - start,
{
    let end = find_char(s, '\n', start);
    if start < 0 || end < start || end >= s.len() {
        table_line(state, s.skip(start))
    } else {
        table_from(s, end + 1, table_line(state, s.subrange(start, end)))
    }
}

/// The keys of a string table.
pub open spec fn str_keys(content: Seq<char>) -> Seq<Seq<char>> {
    table_from(content, 0, TableView { keys: Seq::empty(), expects: true }).keys
}

proof fn lemma_find_bound(s: Seq<char>, c: char, i: int)
    requires
        0 <= i <= s.len(),
    ensures
        i <= find_char(s, c, i) <= s.len(),
    decreases s.len() - i,
{
    if i < s.len() && s[i] != c {
        lemma_find_bound(s, c, i + 1);
    }
}

/// The keys of a string table.
pub fn parse_str_keys(content: &str) -> (out: Vec<String>)
    ensures
        string_views(out@) == str_keys(content@),
{
    let ghost s = content@;
    let chars = chars_of(content);
    let len = chars.len();
    let mut keys: Vec<String> = Vec::new();
    let mut expects = true;
    let mut start: usize = 0;
    let mut done = false;
    assert(string_views(keys@) =~= Seq::<Seq<char>>::empty());
    let ghost goal = table_from(s, 0, TableView { keys: Seq::empty(), expects: true });
    while !done
        invariant
            s == content@,
            chars@ == s,
            len == chars.len(),
            start <= len,
            !done ==> goal == table_from(
                s,
                start as int,
                TableView { keys: string_views(keys@), expects },
            ),
            done ==> goal == (TableView { keys: string_views(keys@), expects }),
        decreases len - start + if done {
            0int
        } else {
            1int
        },
    {
        let mut end: usize = start;
        while end < len && chars[end] != '\n'
            invariant
                start <= end <= len,
                len == chars.len(),
                chars@ == s,
                find_char(s, '\n', start as int) == find_char(s, '\n', end as int),
            decreases len - end,
        {
            end += 1;
        }
        let text = trim_chars(&chars, start, end);
        let ghost before = TableView { keys: string_views(keys@), expects };
        proof {
            if end == len {
                assert(s.skip(start as int) =~= s.subrange(start as int, end as int));
            }
        }
        let skipped = match crate::text::first_char(&text) {
            None => true,
            Some(c) => c == ';',
        };
        if !skipped {
            if text.as_str().eq_ignore_ascii_case("END") {
                expects = true;
            } else if expects {
                let ghost key = text@;
                keys.push(text);
                assert(string_views(keys@) =~= before.keys.push(key));
                expects = false;
            }
        }
        assert((TableView { keys: string_views(keys@), expects }) == table_line(
            before,
            s.subrange(start as int, end as int),
        ));
        if end == len {
            done = true;
        } else {
            start = end + 1;
        }
    }
    keys
}

// ---------------------------------------------------------------------------
// Laws
// ---------------------------------------------------------------------------
proof fn lemma_hex(n: nat, k: nat)
    ensures
        hex_digits(n, k).len() == k,
        forall|i: int| 0 <= i < k ==> is_hex(#[trigger] hex_digits(n, k)[i]),
    decreases k,
{
    if k > 0 {
        lemma_hex(n / 16, (k - 1) as nat);
        let rest = hex_digits(n / 16, (k - 1) as nat);
        assert forall|i: int| 0 <= i < k implies is_hex(#[trigger] hex_digits(n, k)[i]) by {
            if i < k - 1 {
                assert(hex_digits(n, k)[i] == rest[i]);
            }
        }
    }
}

proof fn lemma_find_after(s: Seq<char>, c: char, i: int, at: int)
    requires
        0 <= i <= at < s.len(),
        s[at] == c,
        forall|k: int| i <= k < at ==> #[trigger] s[k] != c,
    ensures
        find_char(s, c, i) == at,
    decreases at - i,
{
    if i < at {
        assert(s[i] != c);
        lemma_find_after(s, c, i + 1, at);
    }
}

/// Law: the name of a cache file gives back the version it was made for, whatever
/// the version.
pub proof fn cache_name_gives_version(version: u32, hash: u64)
    ensures
        cache_version(versioned_name(version, hash)) == Some(version as int),
{
    reveal_strlit("index-v");
    reveal_strlit(".json");
    reveal_strlit("-");
    lemma_hex(hash as nat, 16);
    let digits = hex_digits(hash as nat, 16);
    let name = versioned_name(version, hash);
    let front = "index-v"@;
    let back = ".json"@;
    let number = decimal(version as nat);
    lemma_decimal_reads_back(version as nat);
    let n = number.len() as int;
    let rest = number + "-"@ + digits;
    assert(name =~= front + rest + back);
    assert(name.take(7) =~= front);
    assert(name.skip(name.len() - 5) =~= back);
    assert(name.subrange(7, name.len() - 5) =~= rest);
    assert forall|k: int| 0 <= k < n implies #[trigger] rest[k] != '-' by {
        assert(rest[k] == number[k]);
        assert(is_digit(number[k]));
    }
    lemma_find_after(rest, '-', 0, n);
    assert(rest.take(n) =~= number);
    assert(rest.skip(n + 1) =~= digits);
    assert(is_hash(digits));
    assert(is_digit(number[0]));
}

/// The number that lower-case hexadecimal digits denote.
spec fn hex_value(s: Seq<char>) -> nat
    decreases s.len(),
{
    if s.len() == 0 {
        0
    } else {
        hex_value(s.drop_last()) * 16 + if s.last() <= '9' {
            (s.last() as nat - 48) as nat
        } else {
            (s.last() as nat - 87) as nat
        }
    }
}

/// How many numbers have `k` hexadecimal digits.
spec fn hex_room(k: nat) -> nat
    decreases k,
{
    if k == 0 {
        1
    } else {
        16 * hex_room((k - 1) as nat)
    }
}

proof fn lemma_hex_value(s: Seq<char>)
    requires
        forall|i: int| 0 <= i < s.len() ==> is_hex(#[trigger] s[i]),
    ensures
        hex_digits(hex_value(s), s.len()) == s,
        hex_value(s) < hex_room(s.len()),
    decreases s.len(),
{
    if s.len() > 0 {
        let rest = s.drop_last();
        assert forall|i: int| 0 <= i < rest.len() implies is_hex(#[trigger] rest[i]) by {
            assert(rest[i] == s[i]);
        }
        lemma_hex_value(rest);
        assert(is_hex(s[s.len() - 1]));
        let n = hex_value(s);
        let digit = n - hex_value(rest) * 16;
        assert(0 <= digit < 16);
        assert(n / 16 == hex_value(rest) && n % 16 == digit);
        assert(hex_char((n % 16) as nat) == s.last());
        assert(hex_digits(n, s.len()) =~= s);
    } else {
        assert(hex_digits(0, 0) =~= s);
    }
}

proof fn lemma_find_hit(s: Seq<char>, c: char, i: int)
    requires
        0 <= i <= s.len(),
    ensures
        find_char(s, c, i) < s.len() ==> s[find_char(s, c, i)] == c,
    decreases s.len() - i,
{
    if i < s.len() && s[i] != c {
        lemma_find_hit(s, c, i + 1);
    }
}

/// Law: only names that are written for a cache have a version.
pub proof fn versions_are_of_written_names(name: Seq<char>)
    requires
        cache_version(name) is Some,
    ensures
        0 <= cache_version(name)->0 <= u32::MAX,
        exists|hash: u64|
            name == #[trigger] versioned_name(cache_version(name)->0 as u32, hash),
{
    reveal_strlit("-");
    let (front, back) = ("index-v"@, ".json"@);
    let version = cache_version(name)->0;
    let rest = between(name, front, back)->0;
    let (number, digits) = split_first(rest, '-')->0;
    let i = find_char(rest, '-', 0);
    lemma_find_bound(rest, '-', 0);
    lemma_find_hit(rest, '-', 0);
    assert(rest =~= number + "-"@ + digits);
    assert(name =~= front + rest + back);
    lemma_hex_value(digits);
    reveal_with_fuel(hex_room, 17);
    assert(hex_room(16) == 0x1_0000_0000_0000_0000);
    let hash = hex_value(digits) as u64;
    lemma_unsigned(number);
    assert(name =~= versioned_name(version as u32, hash));
}

/// Digits without a sign denote no negative number.
proof fn lemma_unsigned(s: Seq<char>)
    requires
        u32_value(s) is Some,
    ensures
        u32_value(s)->0 >= 0,
{
    let digits = if s[0] == '+' {
        s.drop_first()
    } else {
        s
    };
    lemma_digits_value_bounds(digits);
}

/// Law: files that are no index caches, and the cache in use, are never dropped.
pub proof fn pruning_spares_others(files: Seq<CacheFile>, now: u128, in_use: bool, i: int)
    requires
        0 <= i < files.len(),
        cache_version(files[i].name@) is None || files[i].in_use,
    ensures
        !is_dropped(files, now, in_use, i),
{
}

/// Whether cache `i` competes and is kept.
pub open spec fn survives(files: Seq<CacheFile>, now: u128, in_use: bool, i: int) -> bool {
    competes(files[i], now) && !is_dropped(files, now, in_use, i)
}

/// How many of the first `n` files compete and are kept.
pub open spec fn count_survivors(files: Seq<CacheFile>, now: u128, in_use: bool, n: nat) -> nat
    decreases n,
{
    if n == 0 {
        0
    } else {
        count_survivors(files, now, in_use, (n - 1) as nat) + if survives(
            files,
            now,
            in_use,
            n - 1,
        ) {
            1nat
        } else {
            0nat
        }
    }
}

/// Among the survivors of the first `n` files there is an oldest.
proof fn lemma_oldest(files: Seq<CacheFile>, now: u128, in_use: bool, n: nat) -> (oldest: int)
    requires
        n <= files.len(),
        count_survivors(files, now, in_use, n) > 0,
    ensures
        0 <= oldest < n,
        survives(files, now, in_use, oldest),
        forall|j: int|
            0 <= j < n && j != oldest && #[trigger] survives(files, now, in_use, j) ==> goes_before(
                files,
                now,
                j,
                oldest,
            ),
    decreases n,
{
    let rest = (n - 1) as nat;
    if count_survivors(files, now, in_use, rest) == 0 {
        lemma_no_survivors(files, now, in_use, rest);
        n - 1
    } else {
        let oldest = lemma_oldest(files, now, in_use, rest);
        if survives(files, now, in_use, n - 1) && goes_before(files, now, oldest, n - 1) {
            assert forall|j: int|
                0 <= j < n && j != n - 1 && #[trigger] survives(
                    files,
                    now,
                    in_use,
                    j,
                ) implies goes_before(files, now, j, n - 1) by {
                if j != oldest {
                    assert(goes_before(files, now, j, oldest));
                }
            }
            n - 1
        } else {
            oldest
        }
    }
}

proof fn lemma_no_survivors(files: Seq<CacheFile>, now: u128, in_use: bool, n: nat)
    requires
        count_survivors(files, now, in_use, n) == 0,
    ensures
        forall|j: int| 0 <= j < n ==> !#[trigger] survives(files, now, in_use, j),
    decreases n,
{
    if n > 0 {
        lemma_no_survivors(files, now, in_use, (n - 1) as nat);
    }
}

/// The other survivors all go before the oldest.
proof fn lemma_count_oldest(
    files: Seq<CacheFile>,
    now: u128,
    in_use: bool,
    oldest: int,
    n: nat,
    all: nat,
)
    requires
        n <= all,
        forall|j: int|
            0 <= j < all && j != oldest && #[trigger] survives(
                files,
                now,
                in_use,
                j,
            ) ==> goes_before(files, now, j, oldest),
    ensures
        count_survivors(files, now, in_use, n) <= count_before(files, now, oldest, n) + if 0
            <= oldest < n {
            1nat
        } else {
            0nat
        },
    decreases n,
{
    if n > 0 {
        lemma_count_oldest(files, now, in_use, oldest, (n - 1) as nat, all);
        if n - 1 != oldest && survives(files, now, in_use, n - 1) {
            assert(goes_before(files, now, n - 1, oldest));
        }
    }
}

/// Law: after pruning, no more competing caches are left than there are places
/// for.
pub proof fn pruning_leaves_few(files: Seq<CacheFile>, now: u128, in_use: bool)
    ensures
        count_survivors(files, now, in_use, files.len()) <= places(in_use),
{
    let n = files.len();
    if count_survivors(files, now, in_use, n) > 0 {
        let oldest = lemma_oldest(files, now, in_use, n);
        lemma_count_oldest(files, now, in_use, oldest, n, n);
    }
}

} // verus!
