//! Open documents and the files that only exist inside archives.

use std::sync::Arc;

use ropey::Rope;
use vstd::prelude::*;
use vstd::string::*;
use vstd::utf8::*;

use crate::analyzer::{Analyzer, SchemaOpeners};
use crate::convert::{
    apply_change, changed, forward, is_forward, lemma_place, offset_at, place, PositionEnc,
    TextRange,
};
use crate::diagnostics::DiagnosticsCache;
use crate::incremental::{edit_applies, Edit};
use crate::lexer::byte_len;
use crate::parser::{opt_text, parse_text, Parse};
use crate::rope::{rope_bytes, rope_clone, rope_from, rope_string, rope_text};
use crate::table::SlotTable;
use crate::text::{blen, byte_at, lemma_boundary, lemma_byte_at_split, lemma_encode_concat};
use crate::tree::share;
use crate::uri::{parse_uri, parsed_uri};
use crate::wire::WireToken;

verus! {

/// More changes than this in one batch are applied in bulk.
pub const BULK_CHANGE_THRESHOLD: usize = 8;

/// A batch of several changes with more text than this is applied in bulk.
pub const BULK_TEXT_BYTES: usize = 32768;

/// One change of a document: new text for a range, or for everything.
#[derive(Debug)]
pub struct TextChange {
    pub range: Option<TextRange>,
    pub text: String,
}

/// How a batch of changes was applied.
#[derive(Debug, Clone, Copy, PartialEq, Eq, Structural)]
pub enum ChangeStrategy {
    /// One incremental reparse per change.
    Incremental,
    /// Some change replaced the whole text.
    Full,
    /// All changes to the text first, then one parse.
    Bulk,
}

/// An immutable, consistent view of an open document.
pub struct DocumentSnapshot {
    pub rope: Rope,
    pub text: Arc<String>,
    pub parse: Arc<Parse>,
    pub version: i32,
}

/// A snapshot and the document's diagnostics cache.
pub struct DiagnosticSnapshot {
    pub document: DocumentSnapshot,
    pub cache: DiagnosticsCache,
}

/// An open document.
pub struct DocumentState {
    pub rope: Rope,
    pub text: Arc<String>,
    pub parse: Arc<Parse>,
    pub version: i32,
    pub diag_cache: DiagnosticsCache,
    pub last_semantic: Option<(u64, Vec<WireToken>)>,
}

/// A rope, a text and a parse of the same document.
pub open spec fn in_step(
    rope: Rope,
    text: Seq<char>,
    parse: Parse,
    openers: SchemaOpeners,
) -> bool {
    &&& rope_text(rope) == text
    &&& parse.holds(parse_text(openers, text))
    &&& blen(text) <= u32::MAX
}

impl DocumentSnapshot {
    /// The representations agree.
    pub open spec fn consistent(&self, openers: SchemaOpeners) -> bool {
        in_step(self.rope, self.text@, *self.parse, openers)
    }
}

impl DocumentState {
    /// The representations agree.
    pub open spec fn consistent(&self, openers: SchemaOpeners) -> bool {
        in_step(self.rope, self.text@, *self.parse, openers)
    }

    /// What a snapshot taken now holds.
    pub open spec fn captured(&self, snapshot: DocumentSnapshot) -> bool {
        &&& rope_text(snapshot.rope) == rope_text(self.rope)
        &&& snapshot.text == self.text
        &&& snapshot.parse == self.parse
        &&& snapshot.version == self.version
    }

    fn snapshot(&self) -> (out: DocumentSnapshot)
        ensures
            self.captured(out),
    {
        DocumentSnapshot {
            rope: rope_clone(&self.rope),
            text: share(&self.text),
            parse: share(&self.parse),
            version: self.version,
        }
    }
}

/// The text after a batch of changes, each applied to what the one before left.
pub open spec fn applied(s: Seq<char>, changes: Seq<TextChange>, enc: PositionEnc) -> Seq<char>
    decreases changes.len(),
{
    if changes.len() == 0 {
        s
    } else {
        changed(
            applied(s, changes.drop_last(), enc),
            changes.last().range,
            changes.last().text@,
            enc,
        )
    }
}

/// Change `i` of a batch has a range that runs forward, and leaves a text whose
/// offsets fit.
pub open spec fn applies_at(
    s: Seq<char>,
    changes: Seq<TextChange>,
    i: int,
    enc: PositionEnc,
) -> bool {
    &&& forward(applied(s, changes.take(i), enc), changes[i].range, enc)
    &&& blen(applied(s, changes.take(i + 1), enc)) <= u32::MAX
}

/// Every change of a batch can be applied.
pub open spec fn applicable(s: Seq<char>, changes: Seq<TextChange>, enc: PositionEnc) -> bool {
    forall|i: int| 0 <= i < changes.len() ==> #[trigger] applies_at(s, changes, i, enc)
}

/// The bytes of new text in a batch.
pub open spec fn change_bytes(changes: Seq<TextChange>) -> nat
    decreases changes.len(),
{
    if changes.len() == 0 {
        0
    } else {
        change_bytes(changes.drop_last()) + blen(changes.last().text@)
    }
}

/// Whether every change of a batch has a range.
pub open spec fn all_ranged(changes: Seq<TextChange>) -> bool {
    forall|i: int| 0 <= i < changes.len() ==> (#[trigger] changes[i]).range is Some
}

/// How a batch is applied.
pub open spec fn strategy_of(changes: Seq<TextChange>) -> ChangeStrategy {
    if !all_ranged(changes) {
        ChangeStrategy::Full
    } else if changes.len() > BULK_CHANGE_THRESHOLD || (changes.len() > 1 && change_bytes(changes)
        > BULK_TEXT_BYTES) {
        ChangeStrategy::Bulk
    } else {
        ChangeStrategy::Incremental
    }
}

proof fn lemma_change_bytes(changes: Seq<TextChange>, i: int)
    requires
        0 <= i <= changes.len(),
    ensures
        change_bytes(changes.take(i)) <= change_bytes(changes),
    decreases changes.len() - i,
{
    if i < changes.len() {
        lemma_change_bytes(changes, i + 1);
        assert(changes.take(i + 1).drop_last() =~= changes.take(i));
    } else {
        assert(changes.take(i) =~= changes);
    }
}

/// Whether a batch carries more than [`BULK_TEXT_BYTES`] of new text.
fn carries_bulk(changes: &Vec<TextChange>) -> (yes: bool)
    ensures
        yes == (change_bytes(changes@) > BULK_TEXT_BYTES),
{
    let mut total: usize = 0;
    let mut i: usize = 0;
    while i < changes.len()
        invariant
            i <= changes.len(),
            total == change_bytes(changes@.take(i as int)),
            total <= BULK_TEXT_BYTES,
        decreases changes.len() - i,
    {
        assert(changes@.take(i + 1).drop_last() =~= changes@.take(i as int));
        proof {
            lemma_change_bytes(changes@, i + 1);
        }
        let len = byte_len(&changes[i].text);
        if len > BULK_TEXT_BYTES - total {
            return true;
        }
        total = total + len;
        i += 1;
    }
    assert(changes@.take(i as int) =~= changes@);
    false
}

/// How a batch is applied.
pub fn choose_strategy(changes: &Vec<TextChange>) -> (strategy: ChangeStrategy)
    ensures
        strategy == strategy_of(changes@),
{
    let mut i: usize = 0;
    while i < changes.len()
        invariant
            i <= changes.len(),
            forall|j: int| 0 <= j < i ==> (#[trigger] changes[j]).range is Some,
        decreases changes.len() - i,
    {
        if changes[i].range.is_none() {
            return ChangeStrategy::Full;
        }
        i += 1;
    }
    if changes.len() > BULK_CHANGE_THRESHOLD || (changes.len() > 1 && carries_bulk(changes)) {
        ChangeStrategy::Bulk
    } else {
        ChangeStrategy::Incremental
    }
}

/// A ranged change is an edit of the encoded text.
proof fn lemma_change_is_edit(
    s: Seq<char>,
    range: TextRange,
    text: Seq<char>,
    enc: PositionEnc,
    edit: Edit,
)
    requires
        forward(s, Some(range), enc),
        edit.start == byte_at(s, place(s, range.start, enc)),
        edit.old_end == byte_at(s, place(s, range.end, enc)),
        edit.new_len == blen(text),
    ensures
        edit_applies(encode_utf8(s), encode_utf8(changed(s, Some(range), text, enc)), edit),
{
    lemma_place(s, range.start, enc);
    lemma_place(s, range.end, enc);
    let a = place(s, range.start, enc);
    let b = place(s, range.end, enc);
    let next = changed(s, Some(range), text, enc);
    lemma_byte_at_split(s, a, b);
    lemma_byte_at_split(s, b, s.len() as int);
    lemma_boundary(s, a);
    lemma_boundary(s, b);
    lemma_encode_concat(s.take(a), text);
    lemma_encode_concat(s.take(a) + text, s.skip(b));
    lemma_encode_concat(s.take(b), s.skip(b));
    assert(s.take(b) + s.skip(b) =~= s);
    assert(encode_utf8(next).subrange(0, edit.start as int) =~= encode_utf8(s.take(a)));
    assert(encode_utf8(next).subrange(
        edit.start + edit.new_len,
        encode_utf8(next).len() as int,
    ) =~= encode_utf8(s.skip(b)));
}

/// Apply all changes to the rope first, then parse once.
fn apply_bulk(
    analyzer: &Analyzer,
    state: DocumentState,
    changes: &Vec<TextChange>,
    version: i32,
    enc: PositionEnc,
) -> (out: DocumentState)
    requires
        state.consistent(analyzer.openers),
        applicable(state.text@, changes@, enc),
    ensures
        out.consistent(analyzer.openers),
        out.text@ == applied(state.text@, changes@, enc),
        out.version == version,
        out.diag_cache == state.diag_cache,
        out.last_semantic == state.last_semantic,
{
    let ghost s = state.text@;
    let mut rope = state.rope;
    let mut i: usize = 0;
    assert(changes@.take(0) =~= Seq::<TextChange>::empty());
    while i < changes.len()
        invariant
            i <= changes.len(),
            applicable(s, changes@, enc),
            rope_text(rope) == applied(s, changes@.take(i as int), enc),
            blen(rope_text(rope)) <= u32::MAX,
        decreases changes.len() - i,
    {
        assert(applies_at(s, changes@, i as int, enc));
        assert(changes@.take(i + 1).drop_last() =~= changes@.take(i as int));
        apply_change(&mut rope, changes[i].range, &changes[i].text, enc);
        i += 1;
    }
    assert(changes@.take(i as int) =~= changes@);
    let text = rope_string(&rope);
    let parse = analyzer.parse(&text);
    DocumentState {
        rope,
        text: Arc::new(text),
        parse: Arc::new(parse),
        version,
        diag_cache: state.diag_cache,
        last_semantic: state.last_semantic,
    }
}

/// Apply each change to the rope and reparse incrementally after it.
fn apply_each(
    analyzer: &Analyzer,
    state: DocumentState,
    changes: &Vec<TextChange>,
    version: i32,
    enc: PositionEnc,
) -> (out: DocumentState)
    requires
        state.consistent(analyzer.openers),
        applicable(state.text@, changes@, enc),
    ensures
        out.consistent(analyzer.openers),
        out.text@ == applied(state.text@, changes@, enc),
        out.version == version,
        out.diag_cache == state.diag_cache,
        out.last_semantic == state.last_semantic,
{
    let ghost s = state.text@;
    let mut rope = state.rope;
    let mut text = state.text;
    let mut parse = state.parse;
    let mut i: usize = 0;
    assert(changes@.take(0) =~= Seq::<TextChange>::empty());
    while i < changes.len()
        invariant
            i <= changes.len(),
            applicable(s, changes@, enc),
            text@ == applied(s, changes@.take(i as int), enc),
            in_step(rope, text@, *parse, analyzer.openers),
        decreases changes.len() - i,
    {
        assert(applies_at(s, changes@, i as int, enc));
        assert(changes@.take(i + 1).drop_last() =~= changes@.take(i as int));
        let change = &changes[i];
        match change.range {
            Some(range) => {
                let ghost before = text@;
                let start = offset_at(&rope, range.start, enc);
                let old_end = offset_at(&rope, range.end, enc);
                apply_change(&mut rope, Some(range), &change.text, enc);
                let new_text = rope_string(&rope);
                let edit = Edit {
                    start: start as usize,
                    old_end: old_end as usize,
                    new_len: byte_len(&change.text),
                };
                proof {
                    lemma_change_is_edit(before, range, change.text@, enc, edit);
                }
                let (next, _) = analyzer.reparse(&parse, &text, &new_text, edit);
                parse = Arc::new(next);
                text = Arc::new(new_text);
            },
            None => {
                rope = rope_from(&change.text);
                let new_text = rope_string(&rope);
                parse = Arc::new(analyzer.parse(&new_text));
                text = Arc::new(new_text);
            },
        }
        i += 1;
    }
    assert(changes@.take(i as int) =~= changes@);
    DocumentState {
        rope,
        text,
        parse,
        version,
        diag_cache: state.diag_cache,
        last_semantic: state.last_semantic,
    }
}

/// Whether a batch of changes can be applied to a text.
pub fn changes_apply(rope: &Rope, changes: &Vec<TextChange>, enc: PositionEnc) -> (yes: bool)
    ensures
        yes == applicable(rope_text(*rope), changes@, enc),
{
    let ghost s = rope_text(*rope);
    let mut copy = rope_clone(rope);
    let mut i: usize = 0;
    assert(changes@.take(0) =~= Seq::<TextChange>::empty());
    while i < changes.len()
        invariant
            s == rope_text(*rope),
            i <= changes.len(),
            forall|j: int| 0 <= j < i ==> #[trigger] applies_at(s, changes@, j, enc),
            rope_text(copy) == applied(s, changes@.take(i as int), enc),
        decreases changes.len() - i,
    {
        assert(changes@.take(i + 1).drop_last() =~= changes@.take(i as int));
        if !is_forward(&copy, changes[i].range, enc) {
            assert(!applies_at(s, changes@, i as int, enc));
            return false;
        }
        apply_change(&mut copy, changes[i].range, &changes[i].text, enc);
        if rope_bytes(&copy) > u32::MAX as usize {
            assert(!applies_at(s, changes@, i as int, enc));
            return false;
        }
        i += 1;
    }
    true
}

/// Every open document is consistent.
pub open spec fn all_consistent(
    docs: Map<Seq<char>, DocumentState>,
    openers: SchemaOpeners,
) -> bool {
    forall|uri: Seq<char>| #[trigger]
        docs.dom().contains(uri) ==> docs[uri].consistent(openers)
}

/// A document before and after its diagnostics cache was replaced.
pub open spec fn same_but_cache(before: DocumentState, after: DocumentState) -> bool {
    &&& rope_text(after.rope) == rope_text(before.rope)
    &&& after.text == before.text
    &&& after.parse == before.parse
    &&& after.version == before.version
    &&& after.last_semantic == before.last_semantic
}

/// A document before and after its semantic history was replaced.
pub open spec fn same_but_history(before: DocumentState, after: DocumentState) -> bool {
    &&& rope_text(after.rope) == rope_text(before.rope)
    &&& after.text == before.text
    &&& after.parse == before.parse
    &&& after.version == before.version
    &&& after.diag_cache == before.diag_cache
}

/// The archive entries of a list, a later entry of a URI replacing an earlier.
pub open spec fn file_map(files: Seq<(String, String)>) -> Map<Seq<char>, Seq<char>>
    decreases files.len(),
{
    if files.len() == 0 {
        Map::empty()
    } else {
        file_map(files.drop_last()).insert(files.last().0@, files.last().1@)
    }
}

/// Open documents by URI, and the text of archive entries by URI.
pub struct DocumentStore {
    open: SlotTable<DocumentState>,
    virtual_files: SlotTable<String>,
}

impl DocumentStore {
    /// The open documents.
    pub closed spec fn docs(&self) -> Map<Seq<char>, DocumentState> {
        self.open@
    }

    /// The text of the archive entries.
    pub closed spec fn archived(&self) -> Map<Seq<char>, Seq<char>> {
        self.virtual_files@.map_values(|text: String| text@)
    }

    /// The tables are sound.
    pub closed spec fn wf(&self) -> bool {
        &&& self.open.wf()
        &&& self.virtual_files.wf()
    }

    /// The source of a URI: an open document before an archive entry, an
    /// archive entry before what is on disk.
    pub open spec fn source(&self, uri: Seq<char>, disk: Option<Seq<char>>) -> Option<Seq<char>> {
        if self.docs().dom().contains(uri) {
            Some(rope_text(self.docs()[uri].rope))
        } else if self.archived().dom().contains(uri) {
            Some(self.archived()[uri])
        } else {
            disk
        }
    }

    pub fn new() -> (store: Self)
        ensures
            store.wf(),
            store.docs() == Map::<Seq<char>, DocumentState>::empty(),
            store.archived() == Map::<Seq<char>, Seq<char>>::empty(),
    {
        let store = DocumentStore { open: SlotTable::new(), virtual_files: SlotTable::new() };
        assert(store.archived() =~= Map::<Seq<char>, Seq<char>>::empty());
        store
    }

    /// Open a document.
    pub fn open(&mut self, analyzer: &Analyzer, uri: &str, text: String, version: i32)
        requires
            old(self).wf(),
            blen(text@) <= u32::MAX,
        ensures
            final(self).wf(),
            final(self).archived() == old(self).archived(),
            final(self).docs() == old(self).docs().insert(uri@, final(self).docs()[uri@]),
            final(self).docs()[uri@].consistent(analyzer.openers),
            final(self).docs()[uri@].text@ == text@,
            final(self).docs()[uri@].version == version,
            final(self).docs()[uri@].diag_cache.is_new(),
            final(self).docs()[uri@].last_semantic is None,
    {
        let rope = rope_from(&text);
        let parse = analyzer.parse(&text);
        let state = DocumentState {
            rope,
            text: Arc::new(text),
            parse: Arc::new(parse),
            version,
            diag_cache: DiagnosticsCache::new(),
            last_semantic: None,
        };
        self.open.put(uri, state);
    }

    /// Apply a batch of changes to an open document. `None` if it is not open.
    pub fn change(
        &mut self,
        analyzer: &Analyzer,
        uri: &str,
        changes: &Vec<TextChange>,
        version: i32,
        encoding: PositionEnc,
    ) -> (out: Option<ChangeStrategy>)
        requires
            old(self).wf(),
            old(self).docs().dom().contains(uri@) ==> old(self).docs()[uri@].consistent(
                analyzer.openers,
            ) && applicable(old(self).docs()[uri@].text@, changes@, encoding),
        ensures
            final(self).wf(),
            final(self).archived() == old(self).archived(),
            match out {
                None => !old(self).docs().dom().contains(uri@) && final(self).docs() == old(self).docs(),
                Some(strategy) => {
                    let before = old(self).docs()[uri@];
                    let after = final(self).docs()[uri@];
                    &&& old(self).docs().dom().contains(uri@)
                    &&& strategy == strategy_of(changes@)
                    &&& final(self).docs() == old(self).docs().insert(uri@, after)
                    &&& after.consistent(analyzer.openers)
                    &&& after.text@ == applied(before.text@, changes@, encoding)
                    &&& after.version == version
                    &&& after.diag_cache == before.diag_cache
                    &&& after.last_semantic == before.last_semantic
                },
            },
    {
        let ghost docs = self.docs();
        let state = match self.open.take(uri) {
            Some(state) => state,
            None => {
                assert(docs.remove(uri@) =~= docs);
                return None;
            },
        };
        let strategy = choose_strategy(changes);
        let state = if matches!(strategy, ChangeStrategy::Bulk) {
            apply_bulk(analyzer, state, changes, version, encoding)
        } else {
            apply_each(analyzer, state, changes, version, encoding)
        };
        let ghost after = state;
        self.open.put(uri, state);
        assert(docs.remove(uri@).insert(uri@, after) =~= docs.insert(uri@, after));
        Some(strategy)
    }

    /// Close a document.
    pub fn close(&mut self, uri: &str)
        requires
            old(self).wf(),
        ensures
            final(self).wf(),
            final(self).archived() == old(self).archived(),
            final(self).docs() == old(self).docs().remove(uri@),
    {
        let _ = self.open.take(uri);
    }

    /// The rope, text, parse and version of an open document.
    pub fn snapshot(&self, uri: &str) -> (out: Option<DocumentSnapshot>)
        requires
            self.wf(),
        ensures
            match out {
                Some(snapshot) => self.docs().dom().contains(uri@) && self.docs()[uri@].captured(
                    snapshot,
                ),
                None => !self.docs().dom().contains(uri@),
            },
    {
        match self.open.get(uri) {
            Some(state) => Some(state.snapshot()),
            None => None,
        }
    }

    /// A snapshot of an open document together with its diagnostics cache,
    /// which the document loses until [`Self::restore_diagnostics`].
    pub fn checkout_diagnostics(&mut self, uri: &str) -> (out: Option<DiagnosticSnapshot>)
        requires
            old(self).wf(),
        ensures
            final(self).wf(),
            final(self).archived() == old(self).archived(),
            match out {
                None => !old(self).docs().dom().contains(uri@) && final(self).docs() == old(self).docs(),
                Some(snapshot) => {
                    let before = old(self).docs()[uri@];
                    let after = final(self).docs()[uri@];
                    &&& old(self).docs().dom().contains(uri@)
                    &&& final(self).docs() == old(self).docs().insert(uri@, after)
                    &&& before.captured(snapshot.document)
                    &&& snapshot.cache == before.diag_cache
                    &&& same_but_cache(before, after)
                    &&& after.diag_cache.is_new()
                },
            },
    {
        let ghost docs = self.docs();
        match self.open.take(uri) {
            None => {
                assert(docs.remove(uri@) =~= docs);
                None
            },
            Some(state) => {
                let document = state.snapshot();
                let cache = state.diag_cache;
                let state = DocumentState {
                    rope: state.rope,
                    text: state.text,
                    parse: state.parse,
                    version: state.version,
                    diag_cache: DiagnosticsCache::new(),
                    last_semantic: state.last_semantic,
                };
                let ghost after = state;
                self.open.put(uri, state);
                assert(docs.remove(uri@).insert(uri@, after) =~= docs.insert(uri@, after));
                Some(DiagnosticSnapshot { document, cache })
            },
        }
    }

    /// Give a diagnostics cache back to a document whose version is still the
    /// one that the cache was taken at.
    pub fn restore_diagnostics(&mut self, uri: &str, version: i32, cache: DiagnosticsCache) -> (out:
        bool)
        requires
            old(self).wf(),
        ensures
            final(self).wf(),
            final(self).archived() == old(self).archived(),
            out == (old(self).docs().dom().contains(uri@) && old(self).docs()[uri@].version
                == version),
            !out ==> final(self).docs() == old(self).docs(),
            out ==> {
                let after = final(self).docs()[uri@];
                &&& final(self).docs() == old(self).docs().insert(uri@, after)
                &&& same_but_cache(old(self).docs()[uri@], after)
                &&& after.diag_cache == cache
            },
    {
        let ghost docs = self.docs();
        match self.open.get(uri) {
            None => {
                return false;
            },
            Some(state) => {
                if state.version != version {
                    return false;
                }
            },
        }
        match self.open.take(uri) {
            None => false,
            Some(state) => {
                let state = DocumentState {
                    rope: state.rope,
                    text: state.text,
                    parse: state.parse,
                    version: state.version,
                    diag_cache: cache,
                    last_semantic: state.last_semantic,
                };
                let ghost after = state;
                self.open.put(uri, state);
                assert(docs.remove(uri@).insert(uri@, after) =~= docs.insert(uri@, after));
                true
            },
        }
    }

    /// Give every open document a new diagnostics cache.
    pub fn clear_diagnostic_caches(&mut self)
        requires
            old(self).wf(),
        ensures
            final(self).wf(),
            final(self).archived() == old(self).archived(),
            final(self).docs().dom() == old(self).docs().dom(),
            forall|uri: Seq<char>| #[trigger]
                final(self).docs().dom().contains(uri) ==> same_but_cache(
                    old(self).docs()[uri],
                    final(self).docs()[uri],
                ) && final(self).docs()[uri].diag_cache.is_new(),
    {
        let ghost docs = self.docs();
        let names = self.open.names();
        let mut i: usize = 0;
        while i < names.len()
            invariant
                i <= names.len(),
                self.wf(),
                self.archived() == old(self).archived(),
                docs == old(self).docs(),
                self.docs().dom() == docs.dom(),
                forall|j: int| 0 <= j < names.len() ==> docs.dom().contains((#[trigger] names[j])@),
                forall|uri: Seq<char>| #[trigger]
                    docs.dom().contains(uri) ==> exists|j: int|
                        0 <= j < names.len() && (#[trigger] names[j])@ == uri,
                forall|uri: Seq<char>| #[trigger]
                    docs.dom().contains(uri) ==> same_but_cache(docs[uri], self.docs()[uri]),
                forall|j: int|
                    0 <= j < i ==> self.docs()[(#[trigger] names[j])@].diag_cache.is_new(),
            decreases names.len() - i,
        {
            let ghost before = self.docs();
            assert(docs.dom().contains(names[i as int]@));
            let checked = self.checkout_diagnostics(&names[i]);
            assert(self.docs().dom() =~= before.dom());
            i += 1;
        }
        assert forall|uri: Seq<char>| #[trigger]
            self.docs().dom().contains(uri) implies self.docs()[uri].diag_cache.is_new() by {
            assert(docs.dom().contains(uri));
            let j = choose|j: int| 0 <= j < names.len() && (#[trigger] names[j])@ == uri;
            assert(self.docs()[names[j]@].diag_cache.is_new());
        }
    }

    /// Record the semantic tokens that were sent last, and return those before.
    pub fn replace_semantic_history(&mut self, uri: &str, history: (u64, Vec<WireToken>)) -> (out:
        Option<(u64, Vec<WireToken>)>)
        requires
            old(self).wf(),
        ensures
            final(self).wf(),
            final(self).archived() == old(self).archived(),
            if old(self).docs().dom().contains(uri@) {
                let before = old(self).docs()[uri@];
                let after = final(self).docs()[uri@];
                &&& out == before.last_semantic
                &&& final(self).docs() == old(self).docs().insert(uri@, after)
                &&& same_but_history(before, after)
                &&& after.last_semantic == Some(history)
            } else {
                out is None && final(self).docs() == old(self).docs()
            },
    {
        let ghost docs = self.docs();
        match self.open.take(uri) {
            None => {
                assert(docs.remove(uri@) =~= docs);
                None
            },
            Some(state) => {
                let before = state.last_semantic;
                let state = DocumentState {
                    rope: state.rope,
                    text: state.text,
                    parse: state.parse,
                    version: state.version,
                    diag_cache: state.diag_cache,
                    last_semantic: Some(history),
                };
                let ghost after = state;
                self.open.put(uri, state);
                assert(docs.remove(uri@).insert(uri@, after) =~= docs.insert(uri@, after));
                before
            },
        }
    }

    /// The URI of every open document, in no particular order.
    pub fn open_uris(&self) -> (out: Vec<String>)
        ensures
            forall|i: int| 0 <= i < out.len() ==> self.docs().dom().contains((#[trigger] out[i])@),
            forall|uri: Seq<char>| #[trigger]
                self.docs().dom().contains(uri) ==> exists|i: int|
                    0 <= i < out.len() && (#[trigger] out[i])@ == uri,
            forall|i: int, j: int| #![trigger out[i], out[j]]
                0 <= i < j < out.len() ==> out[i]@ != out[j]@,
    {
        self.open.names()
    }

    /// Replace all archive entries.
    pub fn replace_virtual_files(&mut self, files: &Vec<(String, String)>)
        requires
            old(self).wf(),
        ensures
            final(self).wf(),
            final(self).docs() == old(self).docs(),
            final(self).archived() == file_map(files@),
    {
        self.virtual_files.clear();
        let mut i: usize = 0;
        assert(files@.take(0) =~= Seq::<(String, String)>::empty());
        assert(self.archived() =~= Map::<Seq<char>, Seq<char>>::empty());
        while i < files.len()
            invariant
                i <= files.len(),
                self.wf(),
                self.docs() == old(self).docs(),
                self.archived() == file_map(files@.take(i as int)),
            decreases files.len() - i,
        {
            let ghost before = self.archived();
            let text = files[i].1.clone();
            self.virtual_files.put(&files[i].0, text);
            assert(files@.take(i + 1).drop_last() =~= files@.take(i as int));
            assert(self.archived() =~= before.insert(files@[i as int].0@, files@[i as int].1@));
            i += 1;
        }
        assert(files@.take(i as int) =~= files@);
    }

    /// Set one archive entry.
    pub fn insert_virtual_file(&mut self, uri: &str, text: String)
        requires
            old(self).wf(),
        ensures
            final(self).wf(),
            final(self).docs() == old(self).docs(),
            final(self).archived() == old(self).archived().insert(uri@, text@),
    {
        self.virtual_files.put(uri, text);
        assert(self.archived() =~= old(self).archived().insert(uri@, text@));
    }

    /// Forget all archive entries.
    pub fn clear_virtual_files(&mut self)
        requires
            old(self).wf(),
        ensures
            final(self).wf(),
            final(self).docs() == old(self).docs(),
            final(self).archived() == Map::<Seq<char>, Seq<char>>::empty(),
    {
        self.virtual_files.clear();
        assert(self.archived() =~= Map::<Seq<char>, Seq<char>>::empty());
    }

    /// The text of an archive entry.
    pub fn read_virtual_file(&self, uri: &str) -> (out: Option<String>)
        requires
            self.wf(),
        ensures
            match out {
                Some(text) => self.archived().dom().contains(uri@) && text@
                    == self.archived()[uri@],
                None => !self.archived().dom().contains(uri@),
            },
    {
        match self.virtual_files.get(uri) {
            Some(text) => Some(text.clone()),
            None => None,
        }
    }

    /// The source of a URI as a rope, given what is on disk under it.
    pub fn rope_for(&self, uri: &str, disk: Option<&str>) -> (out: Option<Rope>)
        requires
            self.wf(),
        ensures
            match out {
                Some(rope) => self.source(uri@, opt_text(disk)) == Some(rope_text(rope)),
                None => self.source(uri@, opt_text(disk)) is None,
            },
    {
        if let Some(state) = self.open.get(uri) {
            return Some(rope_clone(&state.rope));
        }
        if let Some(text) = self.virtual_files.get(uri) {
            return Some(rope_from(text));
        }
        match disk {
            Some(text) => Some(rope_from(text)),
            None => None,
        }
    }

    /// The source text of a URI, given what is on disk under it. A text that is
    /// no URI has none.
    pub fn source_text(&self, uri: &str, disk: Option<&str>) -> (out: Option<String>)
        requires
            self.wf(),
        ensures
            match parsed_uri(uri@) {
                None => out is None,
                Some((_, _, text)) => match out {
                    Some(source) => self.source(text, opt_text(disk)) == Some(source@),
                    None => self.source(text, opt_text(disk)) is None,
                },
            },
    {
        match parse_uri(uri) {
            None => None,
            Some(parts) => match self.rope_for(&parts.text, disk) {
                Some(rope) => Some(rope_string(&rope)),
                None => None,
            },
        }
    }
}

// ---------------------------------------------------------------------------
// Laws
// ---------------------------------------------------------------------------
/// Law: opening, changing or closing a document leaves every open document with
/// a rope, a text and a parse of the same text, as long as the document that is
/// set is consistent.
pub proof fn setting_keeps_consistency(
    docs: Map<Seq<char>, DocumentState>,
    uri: Seq<char>,
    state: DocumentState,
    openers: SchemaOpeners,
)
    requires
        all_consistent(docs, openers),
        state.consistent(openers),
    ensures
        all_consistent(docs.insert(uri, state), openers),
        all_consistent(docs.remove(uri), openers),
{
    assert forall|other: Seq<char>| #[trigger]
        docs.insert(uri, state).dom().contains(other) implies docs.insert(
        uri,
        state,
    )[other].consistent(openers) by {
        if other != uri {
            assert(docs.dom().contains(other));
        }
    }
    assert forall|other: Seq<char>| #[trigger]
        docs.remove(uri).dom().contains(other) implies docs.remove(uri)[other].consistent(
        openers,
    ) by {
        assert(docs.dom().contains(other));
    }
}

/// Law: two batches one after the other give the text that one batch of all
/// their changes gives.
pub proof fn batches_compose(
    s: Seq<char>,
    first: Seq<TextChange>,
    second: Seq<TextChange>,
    enc: PositionEnc,
)
    ensures
        applied(applied(s, first, enc), second, enc) == applied(s, first + second, enc),
    decreases second.len(),
{
    if second.len() == 0 {
        assert(first + second =~= first);
    } else {
        assert((first + second).drop_last() =~= first + second.drop_last());
        batches_compose(s, first, second.drop_last(), enc);
    }
}

/// Law: a change without a range leaves nothing of what was there before.
pub proof fn full_change_forgets(s: Seq<char>, t: Seq<char>, changes: Seq<TextChange>, enc: PositionEnc)
    requires
        changes.len() > 0,
        changes[0].range is None,
    ensures
        applied(s, changes, enc) == applied(t, changes, enc),
    decreases changes.len(),
{
    if changes.len() > 1 {
        full_change_forgets(s, t, changes.drop_last(), enc);
    }
}

} // verus!
