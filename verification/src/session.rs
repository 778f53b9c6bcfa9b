//! A client's session: the open documents, the index of the workspace, and what
//! each request is answered.

use std::sync::Arc;

use vstd::prelude::*;
use vstd::string::*;

use crate::actions::{fix_views, fixes, fixes_of, Fix, FixView};
use crate::analyzer::{str_views, Analyzer, Span};
use crate::checks::{diagnostic_views, name_set, Diagnostic, DiagnosticView, Severity};
use crate::completion::{complete, completion_views, completions_of, opt_string, Completion};
use crate::convert::{
    fold_lines, folded_lines, offset_at, offset_of, range_at, range_of, Position, PositionEnc,
    TextRange,
};
use crate::diagnostics::{diagnose_with_cache, diagnosed, env_of, DiagnosticsCache};
use crate::document::{
    all_consistent, applicable, applied, changes_apply, same_but_cache, same_but_history,
    setting_keeps_consistency, strategy_of, ChangeStrategy, DocumentSnapshot, DocumentState,
    DocumentStore, TextChange,
};
use crate::facts::{all_items, item_views, model_names_of, sites_of, with_record, FactsView};
use crate::format::{
    coalesced, fmt_edit_views, format_edits, in_bytes, indent_edits, FmtEdit, FmtEditView,
};
use crate::hover::{hover_markdown, hover_text};
use crate::index::{
    definition_views, definitions_in, definitions_of, first_hits, hit_views, location_views,
    symbol_hits, DefinitionView, IndexView, Location, LocationView, SymbolHit, WorkspaceIndex,
};
use crate::index_laws::{
    consistent, new_index_is_consistent, set_file_generation_tracks_names,
    set_file_keeps_consistency,
};
use crate::ingest::ScanEntry;
use crate::nav::{
    hover_at, opt_reference, path_hover, path_reference, reference_at, ReferenceAt, ReferenceView,
};
use crate::origin::{copy_fixes, copy_requests, origin_copy_fixes, requests_of, CopyRequest};
use crate::outline::{document_symbols, folding_ranges, folds_of, symbol_views, symbols_of, DocSymbol};
use crate::parser::{child_views, opt_text, Parse};
use crate::position::{path_of, Bias};
use crate::rope::{rope_bytes, rope_text};
use crate::semantic::{
    semantic_tokens, semantic_tokens_are_sorted, semantic_tokens_range, tokens_of, SemToken,
};
use crate::server::{
    apply_scan, blanks, count_ini, count_models, hint_due, indent_unit, scan_totals,
    take_base_roots_hint, with_scans, HintState, ScanTotals, Workspace,
};
use crate::sites::{document_references, document_tags, module_tags_in, references_in};
use crate::symbols::{
    is_single_token, path_symbol, raw_sites, single_token, sites_cover_every_place, sorted_sites,
    symbol_at, symbol_sites, without_repeats,
};
use crate::text::{blen, lower, string_views};
use crate::uri::{parse_uri, parsed_uri};
use crate::wire::{
    can_splice, encode_tokens, encoded, holds_result, lemma_bounds, semantic_tokens_splice,
    sorted_by_start, splice_bounds, spliced, TokenSplice, WireToken,
};

verus! {

/// No more symbols than this are sent for one query.
pub const MAX_SYMBOLS: usize = 256;

// ---------------------------------------------------------------------------
// What is shown
// ---------------------------------------------------------------------------
/// A diagnostic as a client shows it.
#[derive(Debug)]
pub struct ShownDiagnostic {
    pub range: TextRange,
    pub severity: Severity,
    pub code: &'static str,
    pub message: String,
}

#[verifier::ext_equal]
pub struct ShownDiagnosticView {
    pub range: TextRange,
    pub severity: Severity,
    pub code: Seq<char>,
    pub message: Seq<char>,
}

impl View for ShownDiagnostic {
    type V = ShownDiagnosticView;

    open spec fn view(&self) -> ShownDiagnosticView {
        ShownDiagnosticView {
            range: self.range,
            severity: self.severity,
            code: self.code@,
            message: self.message@,
        }
    }
}

/// Diagnostics as a client shows them.
pub open spec fn shown_diagnostics(
    text: Seq<char>,
    found: Seq<DiagnosticView>,
    enc: PositionEnc,
) -> Seq<ShownDiagnosticView> {
    found.map_values(
        |d: DiagnosticView|
            ShownDiagnosticView {
                range: range_of(text, d.span, enc),
                severity: d.severity,
                code: d.code,
                message: d.message,
            },
    )
}

/// A replacement of text as a client applies it, with a title if it is offered
/// as a fix.
#[derive(Debug)]
pub struct ShownEdit {
    pub title: String,
    pub range: TextRange,
    pub new_text: String,
}

#[verifier::ext_equal]
pub struct ShownEditView {
    pub title: Seq<char>,
    pub range: TextRange,
    pub new_text: Seq<char>,
}

impl View for ShownEdit {
    type V = ShownEditView;

    open spec fn view(&self) -> ShownEditView {
        ShownEditView { title: self.title@, range: self.range, new_text: self.new_text@ }
    }
}

/// Fixes as a client offers them.
pub open spec fn shown_fixes(text: Seq<char>, offered: Seq<FixView>, enc: PositionEnc) -> Seq<
    ShownEditView,
> {
    offered.map_values(
        |fix: FixView|
            ShownEditView {
                title: fix.title,
                range: range_of(text, fix.span, enc),
                new_text: fix.new_text,
            },
    )
}

/// Formatting edits as a client applies them.
pub open spec fn shown_edits(text: Seq<char>, edits: Seq<FmtEditView>, enc: PositionEnc) -> Seq<
    ShownEditView,
> {
    edits.map_values(
        |edit: FmtEditView|
            ShownEditView {
                title: Seq::empty(),
                range: range_of(text, edit.span, enc),
                new_text: edit.new_text,
            },
    )
}

/// A place in a file as a client shows it.
#[derive(Debug)]
pub struct ShownSite {
    pub file: String,
    pub range: TextRange,
}

#[verifier::ext_equal]
pub struct ShownSiteView {
    pub file: Seq<char>,
    pub range: TextRange,
}

impl View for ShownSite {
    type V = ShownSiteView;

    open spec fn view(&self) -> ShownSiteView {
        ShownSiteView { file: self.file@, range: self.range }
    }
}

fn show_diagnostics(document: &DocumentSnapshot, found: &Vec<Diagnostic>, enc: PositionEnc) -> (out:
    Vec<ShownDiagnostic>)
    requires
        blen(rope_text(document.rope)) <= u32::MAX,
    ensures
        item_views(out@) == shown_diagnostics(
            rope_text(document.rope),
            diagnostic_views(found@),
            enc,
        ),
{
    let ghost text = rope_text(document.rope);
    let ghost all = diagnostic_views(found@);
    let mut out: Vec<ShownDiagnostic> = Vec::new();
    let mut i: usize = 0;
    while i < found.len()
        invariant
            i <= found.len(),
            text == rope_text(document.rope),
            blen(text) <= u32::MAX,
            all == diagnostic_views(found@),
            out.len() == i,
            forall|j: int| 0 <= j < i ==> (#[trigger] out[j])@ == shown_diagnostics(text, all, enc)[j],
        decreases found.len() - i,
    {
        let d = &found[i];
        assert(all[i as int] == d.view());
        out.push(
            ShownDiagnostic {
                range: range_at(&document.rope, d.span, enc),
                severity: d.severity,
                code: d.code,
                message: d.message.clone(),
            },
        );
        i += 1;
    }
    assert(item_views(out@) =~= shown_diagnostics(text, all, enc));
    out
}

fn show_fixes(document: &DocumentSnapshot, offered: &Vec<Fix>, enc: PositionEnc) -> (out: Vec<
    ShownEdit,
>)
    requires
        blen(rope_text(document.rope)) <= u32::MAX,
    ensures
        item_views(out@) == shown_fixes(rope_text(document.rope), fix_views(offered@), enc),
{
    let ghost text = rope_text(document.rope);
    let ghost all = fix_views(offered@);
    let mut out: Vec<ShownEdit> = Vec::new();
    let mut i: usize = 0;
    while i < offered.len()
        invariant
            i <= offered.len(),
            text == rope_text(document.rope),
            blen(text) <= u32::MAX,
            all == fix_views(offered@),
            out.len() == i,
            forall|j: int| 0 <= j < i ==> (#[trigger] out[j])@ == shown_fixes(text, all, enc)[j],
        decreases offered.len() - i,
    {
        let fix = &offered[i];
        assert(all[i as int] == fix.view());
        out.push(
            ShownEdit {
                title: fix.title.clone(),
                range: range_at(&document.rope, fix.span, enc),
                new_text: fix.new_text.clone(),
            },
        );
        i += 1;
    }
    assert(item_views(out@) =~= shown_fixes(text, all, enc));
    out
}

fn show_edits(document: &DocumentSnapshot, edits: &Vec<FmtEdit>, enc: PositionEnc) -> (out: Vec<
    ShownEdit,
>)
    requires
        blen(rope_text(document.rope)) <= u32::MAX,
    ensures
        item_views(out@) == shown_edits(rope_text(document.rope), fmt_edit_views(edits@), enc),
{
    let ghost text = rope_text(document.rope);
    let ghost all = fmt_edit_views(edits@);
    let mut out: Vec<ShownEdit> = Vec::new();
    let mut i: usize = 0;
    while i < edits.len()
        invariant
            i <= edits.len(),
            text == rope_text(document.rope),
            blen(text) <= u32::MAX,
            all == fmt_edit_views(edits@),
            out.len() == i,
            forall|j: int| 0 <= j < i ==> (#[trigger] out[j])@ == shown_edits(text, all, enc)[j],
        decreases edits.len() - i,
    {
        let edit = &edits[i];
        assert(all[i as int] == edit.view());
        let title = String::new();
        assert(title@ =~= Seq::<char>::empty());
        out.push(
            ShownEdit {
                title,
                range: range_at(&document.rope, edit.span, enc),
                new_text: edit.new_text.clone(),
            },
        );
        i += 1;
    }
    assert(item_views(out@) =~= shown_edits(text, all, enc));
    out
}

/// The lines of each span that spans more than one.
pub open spec fn shown_folds(text: Seq<char>, spans: Seq<Span>, enc: PositionEnc) -> Seq<(u32, u32)>
    decreases spans.len(),
{
    if spans.len() == 0 {
        Seq::empty()
    } else {
        let rest = shown_folds(text, spans.drop_last(), enc);
        match folded_lines(text, spans.last(), enc) {
            Some(lines) => rest.push(lines),
            None => rest,
        }
    }
}

// ---------------------------------------------------------------------------
// The state
// ---------------------------------------------------------------------------
/// Whether a diagnostics cache can be used for a document: what it holds of the
/// current generation of the index was computed from the current names.
pub open spec fn cache_serves(
    cache: DiagnosticsCache,
    analyzer: Analyzer,
    index: IndexView,
    uri: Seq<char>,
) -> bool {
    match cache.generation() {
        None => true,
        Some(generation) => {
            &&& generation <= index.generation
            &&& generation == index.generation ==> cache.fits(
                env_of(analyzer.schema, Some(index), Some(uri)),
            )
        },
    }
}

/// Whether every document's cache can be used.
pub open spec fn caches_serve(
    docs: Map<Seq<char>, DocumentState>,
    analyzer: Analyzer,
    index: IndexView,
) -> bool {
    forall|uri: Seq<char>| #[trigger]
        docs.dom().contains(uri) ==> cache_serves(docs[uri].diag_cache, analyzer, index, uri)
}

/// Whether an index can follow another: it is of a later generation, or it
/// defines the same names.
pub open spec fn follows(later: IndexView, earlier: IndexView) -> bool {
    &&& consistent(later)
    &&& earlier.generation <= later.generation
    &&& earlier.generation == later.generation ==> name_set(earlier) == name_set(later)
}

/// What the index knows of a document besides its definitions.
pub open spec fn with_document(
    facts: FactsView,
    analyzer: Analyzer,
    uri: Seq<char>,
    parse: Parse,
    keys: Seq<Seq<char>>,
) -> FactsView {
    let children = child_views(parse.children@);
    FactsView {
        tags: with_record(facts.tags, uri, document_tags(analyzer.schema, children)),
        keys: with_record(facts.keys, uri, keys),
        models: facts.models,
        references: with_record(
            facts.references,
            uri,
            document_references(analyzer.schema, children),
        ),
    }
}

/// What semantic tokens are answered with.
pub enum SemanticReply {
    /// All tokens.
    Full(u64, Vec<WireToken>),
    /// What turns the tokens of the result before into those of this one.
    Delta(u64, TokenSplice),
}

/// Why a symbol cannot be renamed.
#[derive(Debug, Clone, Copy, PartialEq, Eq, Structural)]
pub enum RenameError {
    /// The new name is not a single token.
    NotAToken,
}

/// A client's session.
pub struct Session {
    analyzer: Arc<Analyzer>,
    store: DocumentStore,
    index: WorkspaceIndex,
    encoding: PositionEnc,
    next_result: u64,
    hint: HintState,
}

impl Session {
    /// What documents are analyzed with.
    pub closed spec fn analyzer(&self) -> Analyzer {
        *self.analyzer
    }

    /// The open documents.
    pub closed spec fn docs(&self) -> Map<Seq<char>, DocumentState> {
        self.store.docs()
    }

    /// The texts of archive entries.
    pub closed spec fn archived(&self) -> Map<Seq<char>, Seq<char>> {
        self.store.archived()
    }

    /// The definitions of the workspace.
    pub closed spec fn names(&self) -> IndexView {
        self.index.view()
    }

    /// What files contribute besides definitions.
    pub closed spec fn facts(&self) -> FactsView {
        self.index.facts()
    }

    /// What a column counts.
    pub closed spec fn enc(&self) -> PositionEnc {
        self.encoding
    }

    /// The number of the next semantic tokens result.
    pub closed spec fn next(&self) -> u64 {
        self.next_result
    }

    /// What the hint about base roots depends on.
    pub closed spec fn hint(&self) -> HintState {
        self.hint
    }

    /// The source of a URI, given what is on disk under it.
    pub closed spec fn source(&self, uri: Seq<char>, disk: Option<Seq<char>>) -> Option<Seq<char>> {
        self.store.source(uri, disk)
    }

    /// The tables are sound, every document's representations agree, the index is
    /// consistent, and no document's diagnostics cache is out of date.
    pub closed spec fn wf(&self) -> bool {
        &&& self.store.wf()
        &&& all_consistent(self.store.docs(), self.analyzer().openers)
        &&& consistent(self.index.view())
        &&& caches_serve(self.store.docs(), self.analyzer(), self.index.view())
    }

    /// Everything but the documents is as in `other`.
    pub open spec fn same_workspace(&self, other: Session) -> bool {
        &&& self.analyzer() == other.analyzer()
        &&& self.archived() == other.archived()
        &&& self.names() == other.names()
        &&& self.facts() == other.facts()
        &&& self.enc() == other.enc()
        &&& self.next() == other.next()
        &&& self.hint() == other.hint()
    }

    /// The byte offset of a position in an open document.
    pub open spec fn offset(&self, uri: Seq<char>, pos: Position) -> int {
        offset_of(rope_text(self.docs()[uri].rope), pos, self.enc())
    }

    /// A session without documents.
    pub fn new(
        analyzer: Arc<Analyzer>,
        encoding: PositionEnc,
        client_hint: bool,
        roots_empty: bool,
    ) -> (session: Self)
        ensures
            session.wf(),
            session.analyzer() == *analyzer,
            session.docs() == Map::<Seq<char>, DocumentState>::empty(),
            session.archived() == Map::<Seq<char>, Seq<char>>::empty(),
            session.names() == (IndexView {
                entries: Seq::empty(),
                files: Seq::empty(),
                generation: 0,
            }),
            session.enc() == encoding,
            session.next() == 1,
            session.hint() == (HintState {
                scan_finished: false,
                base_indexed: 0,
                roots_empty,
                client_hint,
                shown: false,
            }),
    {
        proof {
            new_index_is_consistent();
        }
        Session {
            analyzer,
            store: DocumentStore::new(),
            index: WorkspaceIndex::new(),
            encoding,
            next_result: 1,
            hint: HintState {
                scan_finished: false,
                base_indexed: 0,
                roots_empty,
                client_hint,
                shown: false,
            },
        }
    }

    /// Open a document.
    pub fn open(&mut self, uri: &str, text: String, version: i32)
        requires
            old(self).wf(),
            blen(text@) <= u32::MAX,
        ensures
            final(self).wf(),
            final(self).same_workspace(*old(self)),
            final(self).docs() == old(self).docs().insert(uri@, final(self).docs()[uri@]),
            final(self).docs()[uri@].consistent(final(self).analyzer().openers),
            final(self).docs()[uri@].text@ == text@,
            final(self).docs()[uri@].version == version,
            final(self).docs()[uri@].last_semantic is None,
    {
        let ghost docs = self.store.docs();
        self.store.open(&self.analyzer, uri, text, version);
        proof {
            setting_keeps_consistency(
                docs,
                uri@,
                self.store.docs()[uri@],
                self.analyzer().openers,
            );
        }
    }

    /// Apply a batch of changes to an open document. `None` if it is not open.
    pub fn change(&mut self, uri: &str, changes: &Vec<TextChange>, version: i32) -> (out: Option<
        ChangeStrategy,
    >)
        requires
            old(self).wf(),
            old(self).docs().dom().contains(uri@) ==> applicable(
                old(self).docs()[uri@].text@,
                changes@,
                old(self).enc(),
            ),
        ensures
            final(self).wf(),
            final(self).same_workspace(*old(self)),
            match out {
                None => !old(self).docs().dom().contains(uri@) && final(self).docs() == old(self).docs(),
                Some(strategy) => {
                    let before = old(self).docs()[uri@];
                    let after = final(self).docs()[uri@];
                    &&& old(self).docs().dom().contains(uri@)
                    &&& strategy == strategy_of(changes@)
                    &&& final(self).docs() == old(self).docs().insert(uri@, after)
                    &&& after.consistent(old(self).analyzer().openers)
                    &&& after.text@ == applied(before.text@, changes@, old(self).enc())
                    &&& after.version == version
                    &&& after.diag_cache == before.diag_cache
                    &&& after.last_semantic == before.last_semantic
                },
            },
    {
        let ghost docs = self.store.docs();
        let out = self.store.change(&self.analyzer, uri, changes, version, self.encoding);
        proof {
            if out is Some {
                setting_keeps_consistency(
                    docs,
                    uri@,
                    self.store.docs()[uri@],
                    self.analyzer().openers,
                );
            }
        }
        out
    }

    /// Whether a batch of changes can be applied to a document: every range runs
    /// forward, and every text it leaves has offsets that fit.
    pub fn can_change(&self, uri: &str, changes: &Vec<TextChange>) -> (yes: bool)
        requires
            self.wf(),
        ensures
            yes == (self.docs().dom().contains(uri@) ==> applicable(
                self.docs()[uri@].text@,
                changes@,
                self.enc(),
            )),
    {
        match self.snapshot(uri) {
            None => true,
            Some(document) => changes_apply(&document.rope, changes, self.encoding),
        }
    }

    /// Whether the counters have room for `more` changes of the index and another
    /// result.
    pub fn has_room(&self, more: usize) -> (yes: bool)
        ensures
            yes == (self.names().generation + more < u64::MAX && self.next() < u64::MAX),
    {
        self.next_result < u64::MAX && (more as u64) < u64::MAX - self.index.generation()
    }

    /// Close a document. Its file stays in the index.
    pub fn close(&mut self, uri: &str)
        requires
            old(self).wf(),
        ensures
            final(self).wf(),
            final(self).same_workspace(*old(self)),
            final(self).docs() == old(self).docs().remove(uri@),
    {
        self.store.close(uri);
    }

    /// Index an open document as it is now, given the keys of the string table
    /// beside it, and find what is wrong with it. `None` if it is not open.
    pub fn refresh(&mut self, uri: &str, keys: Vec<String>) -> (out: Option<Vec<ShownDiagnostic>>)
        requires
            old(self).wf(),
            old(self).names().generation < u64::MAX,
        ensures
            final(self).wf(),
            final(self).analyzer() == old(self).analyzer(),
            final(self).archived() == old(self).archived(),
            final(self).enc() == old(self).enc(),
            final(self).next() == old(self).next(),
            final(self).hint() == old(self).hint(),
            match out {
                None => !old(self).docs().dom().contains(uri@) && final(self).docs()
                    == old(self).docs() && final(self).names() == old(self).names()
                    && final(self).facts() == old(self).facts(),
                Some(shown) => {
                    let before = old(self).docs()[uri@];
                    let after = final(self).docs()[uri@];
                    let schema = old(self).analyzer().schema;
                    &&& old(self).docs().dom().contains(uri@)
                    &&& final(self).docs() == old(self).docs().insert(uri@, after)
                    &&& same_but_cache(before, after)
                    &&& final(self).names() == old(self).names().set_file(
                        uri@,
                        definitions_of(schema, child_views(before.parse.children@)),
                    )
                    &&& final(self).facts() == with_document(
                        old(self).facts(),
                        old(self).analyzer(),
                        uri@,
                        *before.parse,
                        item_views(keys@),
                    )
                    &&& item_views(shown@) == shown_diagnostics(
                        rope_text(before.rope),
                        diagnosed(
                            schema,
                            Some(final(self).names()),
                            Some(uri@),
                            *before.parse,
                        ),
                        old(self).enc(),
                    )
                },
            },
    {
        let ghost docs = self.store.docs();
        let ghost index = self.index.view();
        let DiagnosticPair { document, cache } = match self.take_cache(uri) {
            Some(pair) => pair,
            None => {
                return None;
            },
        };
        let defs = definitions_in(&self.analyzer, &document.parse, uri);
        let refs = references_in(&self.analyzer, &document.parse);
        let tags = module_tags_in(&self.analyzer, &document.parse);
        proof {
            set_file_keeps_consistency(index, uri@, definition_views(defs@));
            set_file_generation_tracks_names(index, uri@, definition_views(defs@));
        }
        self.index.set_file(uri, defs);
        self.index.set_file_refs(uri, refs);
        self.index.set_file_tags(uri, tags);
        self.index.set_ini_string_keys(uri, keys);
        proof {
            lemma_caches_follow(self.store.docs(), self.analyzer(), index, self.index.view());
            lemma_cache_follows(cache, self.analyzer(), index, self.index.view(), uri@);
        }
        let mut cache = cache;
        let found = self.diagnose(uri, &document, &mut cache);
        let shown = show_diagnostics(&document, &found, self.encoding);
        self.put_cache(uri, document.version, cache);
        assert(self.store.docs() =~= docs.insert(uri@, self.store.docs()[uri@]));
        Some(shown)
    }

    /// Take the diagnostics cache of an open document out.
    fn take_cache(&mut self, uri: &str) -> (out: Option<DiagnosticPair>)
        requires
            old(self).wf(),
        ensures
            final(self).wf(),
            final(self).same_workspace(*old(self)),
            match out {
                None => !old(self).docs().dom().contains(uri@) && final(self).docs() == old(self).docs(),
                Some(pair) => {
                    let before = old(self).docs()[uri@];
                    let after = final(self).docs()[uri@];
                    &&& old(self).docs().dom().contains(uri@)
                    &&& final(self).docs() == old(self).docs().insert(uri@, after)
                    &&& same_but_cache(before, after)
                    &&& before.captured(pair.document)
                    &&& before.consistent(old(self).analyzer().openers)
                    &&& pair.cache == before.diag_cache
                    &&& cache_serves(pair.cache, old(self).analyzer(), old(self).names(), uri@)
                },
            },
    {
        let ghost docs = self.store.docs();
        match self.store.checkout_diagnostics(uri) {
            None => None,
            Some(taken) => {
                proof {
                    setting_keeps_consistency(
                        docs,
                        uri@,
                        self.store.docs()[uri@],
                        self.analyzer().openers,
                    );
                }
                Some(DiagnosticPair { document: taken.document, cache: taken.cache })
            },
        }
    }

    /// Give a document its diagnostics cache back.
    fn put_cache(&mut self, uri: &str, version: i32, cache: DiagnosticsCache)
        requires
            old(self).wf(),
            old(self).docs().dom().contains(uri@),
            old(self).docs()[uri@].version == version,
            cache_serves(cache, old(self).analyzer(), old(self).names(), uri@),
        ensures
            final(self).wf(),
            final(self).same_workspace(*old(self)),
            final(self).docs() == old(self).docs().insert(uri@, final(self).docs()[uri@]),
            same_but_cache(old(self).docs()[uri@], final(self).docs()[uri@]),
    {
        let ghost docs = self.store.docs();
        let _ = self.store.restore_diagnostics(uri, version, cache);
        proof {
            setting_keeps_consistency(
                docs,
                uri@,
                self.store.docs()[uri@],
                self.analyzer().openers,
            );
        }
    }

    /// Find what is wrong with a document, reusing what its cache holds.
    fn diagnose(&self, uri: &str, document: &DocumentSnapshot, cache: &mut DiagnosticsCache) -> (out:
        Vec<Diagnostic>)
        requires
            cache_serves(*old(cache), self.analyzer(), self.names(), uri@),
        ensures
            cache_serves(*final(cache), self.analyzer(), self.names(), uri@),
            diagnostic_views(out@) == diagnosed(
                self.analyzer().schema,
                Some(self.names()),
                Some(uri@),
                *document.parse,
            ),
    {
        let count = document.parse.children.len() as u64;
        let (hits, misses) = cache.stats();
        if hits > u64::MAX - count || misses > u64::MAX - count {
            // The counters are full.
            *cache = DiagnosticsCache::new();
        }
        diagnose_with_cache(&self.analyzer, &document.parse, Some(&self.index), Some(uri), cache)
    }
}

impl Session {
    fn snapshot(&self, uri: &str) -> (out: Option<DocumentSnapshot>)
        requires
            self.wf(),
        ensures
            match out {
                Some(document) => {
                    &&& self.docs().dom().contains(uri@)
                    &&& self.docs()[uri@].captured(document)
                    &&& self.docs()[uri@].consistent(self.analyzer().openers)
                },
                None => !self.docs().dom().contains(uri@),
            },
    {
        self.store.snapshot(uri)
    }

    /// What the cursor can be completed to. `None` if the document is not open.
    pub fn completion(&self, uri: &str, pos: Position) -> (out: Option<Vec<Completion>>)
        requires
            self.wf(),
        ensures
            match out {
                None => !self.docs().dom().contains(uri@),
                Some(items) => {
                    let doc = self.docs()[uri@];
                    &&& self.docs().dom().contains(uri@)
                    &&& completion_views(items@) == completions_of(
                        self.analyzer().schema,
                        path_of(
                            child_views(doc.parse.children@),
                            doc.parse.len as int,
                            self.offset(uri@, pos),
                            Bias::Left,
                        ),
                        self.offset(uri@, pos),
                        Some(self.names()),
                        Some(self.facts()),
                        Some(uri@),
                    )
                },
            },
    {
        match self.snapshot(uri) {
            None => None,
            Some(document) => {
                let offset = offset_at(&document.rope, pos, self.encoding);
                Some(
                    complete(
                        &self.analyzer,
                        &document.parse,
                        offset,
                        Some(&self.index),
                        Some(uri),
                    ),
                )
            },
        }
    }

    /// What hovering shows, and over which range. `None` if there is nothing to
    /// show.
    pub fn hover(&self, uri: &str, pos: Position) -> (out: Option<(String, TextRange)>)
        requires
            self.wf(),
        ensures
            ({
                let doc = self.docs()[uri@];
                let schema = self.analyzer().schema;
                let info = path_hover(
                    schema,
                    path_of(
                        child_views(doc.parse.children@),
                        doc.parse.len as int,
                        self.offset(uri@, pos),
                        Bias::Right,
                    ),
                );
                match out {
                    None => !self.docs().dom().contains(uri@) || info is None,
                    Some((markdown, range)) => {
                        &&& self.docs().dom().contains(uri@)
                        &&& info is Some
                        &&& markdown@ == hover_text(schema, info->0).0
                        &&& range == range_of(
                            rope_text(doc.rope),
                            hover_text(schema, info->0).1,
                            self.enc(),
                        )
                    },
                }
            }),
    {
        let document = match self.snapshot(uri) {
            Some(document) => document,
            None => {
                return None;
            },
        };
        let offset = offset_at(&document.rope, pos, self.encoding);
        match hover_at(&self.analyzer, &document.parse, offset) {
            None => None,
            Some(info) => {
                let (markdown, span) = hover_markdown(&self.analyzer, &info);
                Some((markdown, range_at(&document.rope, span, self.encoding)))
            },
        }
    }

    /// The edits that indent a document, with blanks or tabs. `None` if it is not
    /// open.
    pub fn formatting(&self, uri: &str, insert_spaces: bool, tab_size: u32) -> (out: Option<
        Vec<ShownEdit>,
    >)
        requires
            self.wf(),
        ensures
            match out {
                None => !self.docs().dom().contains(uri@),
                Some(edits) => {
                    let doc = self.docs()[uri@];
                    let text = doc.text@;
                    let indent = if insert_spaces {
                        blanks(tab_size as nat)
                    } else {
                        seq!['\t']
                    };
                    &&& self.docs().dom().contains(uri@)
                    &&& item_views(edits@) == shown_edits(
                        text,
                        in_bytes(
                            text,
                            coalesced(
                                text,
                                indent_edits(child_views(doc.parse.children@), text, indent),
                            ),
                        ),
                        self.enc(),
                    )
                },
            },
    {
        match self.snapshot(uri) {
            None => None,
            Some(document) => {
                let indent = indent_unit(insert_spaces, tab_size);
                let edits = format_edits(&document.parse, &document.text, &indent);
                Some(show_edits(&document, &edits, self.encoding))
            },
        }
    }

    /// The outline of a document. `None` if it is not open.
    pub fn outline(&self, uri: &str) -> (out: Option<Vec<DocSymbol>>)
        requires
            self.wf(),
        ensures
            match out {
                None => !self.docs().dom().contains(uri@),
                Some(symbols) => self.docs().dom().contains(uri@) && symbol_views(symbols@)
                    == symbols_of(child_views(self.docs()[uri@].parse.children@)),
            },
    {
        match self.snapshot(uri) {
            None => None,
            Some(document) => Some(document_symbols(&document.parse)),
        }
    }

    /// The range of a span of an open document. `None` if it is not open.
    pub fn range(&self, uri: &str, span: Span) -> (out: Option<TextRange>)
        requires
            self.wf(),
        ensures
            match out {
                None => !self.docs().dom().contains(uri@),
                Some(range) => self.docs().dom().contains(uri@) && range == range_of(
                    rope_text(self.docs()[uri@].rope),
                    span,
                    self.enc(),
                ),
            },
    {
        match self.snapshot(uri) {
            None => None,
            Some(document) => Some(range_at(&document.rope, span, self.encoding)),
        }
    }

    /// The lines that can be folded in a document. `None` if it is not open.
    pub fn folding(&self, uri: &str) -> (out: Option<Vec<(u32, u32)>>)
        requires
            self.wf(),
        ensures
            match out {
                None => !self.docs().dom().contains(uri@),
                Some(lines) => self.docs().dom().contains(uri@) && lines@ == shown_folds(
                    rope_text(self.docs()[uri@].rope),
                    folds_of(child_views(self.docs()[uri@].parse.children@)),
                    self.enc(),
                ),
            },
    {
        let document = match self.snapshot(uri) {
            Some(document) => document,
            None => {
                return None;
            },
        };
        let enc = self.encoding;
        let spans = folding_ranges(&document.parse);
        let ghost text = rope_text(document.rope);
        let mut out: Vec<(u32, u32)> = Vec::new();
        let mut i: usize = 0;
        assert(spans@.take(0) =~= Seq::<Span>::empty());
        while i < spans.len()
            invariant
                i <= spans.len(),
                text == rope_text(document.rope),
                blen(text) <= u32::MAX,
                out@ == shown_folds(text, spans@.take(i as int), enc),
            decreases spans.len() - i,
        {
            assert(spans@.take(i + 1).drop_last() =~= spans@.take(i as int));
            if let Some(lines) = fold_lines(&document.rope, spans[i], enc) {
                out.push(lines);
            }
            i += 1;
        }
        assert(spans@.take(i as int) =~= spans@);
        Some(out)
    }

    /// Classify the tokens of a document for a client, as far as they touch
    /// `range`.
    fn tokens(&self, document: &DocumentSnapshot, range: Option<Span>) -> (out: Vec<WireToken>)
        requires
            document.consistent(self.analyzer().openers),
        ensures
            out@ == encoded(
                rope_text(document.rope),
                tokens_of(self.analyzer().schema, child_views(document.parse.children@), range),
                self.enc(),
            ),
    {
        let tokens = match range {
            None => semantic_tokens(&self.analyzer, &document.parse),
            Some(range) => semantic_tokens_range(&self.analyzer, &document.parse, range),
        };
        proof {
            semantic_tokens_are_sorted(
                self.analyzer().openers,
                self.analyzer().schema,
                document.text@,
                range,
            );
            lemma_apart_is_sorted(tokens@, blen(document.text@) as int);
        }
        encode_tokens(&document.rope, &tokens, self.encoding)
    }

    /// The semantic tokens of a part of a document. `None` if it is not open.
    pub fn semantic_range(&self, uri: &str, range: TextRange) -> (out: Option<Vec<WireToken>>)
        requires
            self.wf(),
        ensures
            match out {
                None => !self.docs().dom().contains(uri@),
                Some(tokens) => {
                    let doc = self.docs()[uri@];
                    &&& self.docs().dom().contains(uri@)
                    &&& tokens@ == encoded(
                        rope_text(doc.rope),
                        tokens_of(
                            self.analyzer().schema,
                            child_views(doc.parse.children@),
                            Some(
                                Span {
                                    start: self.offset(uri@, range.start) as u32,
                                    end: self.offset(uri@, range.end) as u32,
                                },
                            ),
                        ),
                        self.enc(),
                    )
                },
            },
    {
        match self.snapshot(uri) {
            None => None,
            Some(document) => {
                let start = offset_at(&document.rope, range.start, self.encoding);
                let end = offset_at(&document.rope, range.end, self.encoding);
                Some(self.tokens(&document, Some(Span { start, end })))
            },
        }
    }

    /// The semantic tokens of a document, under a new number. Where the client
    /// says that it holds the result before, only what has changed since is sent.
    /// `None` if the document is not open.
    pub fn semantic(&mut self, uri: &str, held: Option<&str>) -> (out: Option<SemanticReply>)
        requires
            old(self).wf(),
            old(self).next() < u64::MAX,
        ensures
            final(self).wf(),
            final(self).analyzer() == old(self).analyzer(),
            final(self).archived() == old(self).archived(),
            final(self).names() == old(self).names(),
            final(self).facts() == old(self).facts(),
            final(self).enc() == old(self).enc(),
            final(self).hint() == old(self).hint(),
            match out {
                None => !old(self).docs().dom().contains(uri@) && final(self).docs()
                    == old(self).docs() && final(self).next() == old(self).next(),
                Some(reply) => {
                    let before = old(self).docs()[uri@];
                    let after = final(self).docs()[uri@];
                    let tokens = encoded(
                        rope_text(before.rope),
                        tokens_of(
                            old(self).analyzer().schema,
                            child_views(before.parse.children@),
                            None,
                        ),
                        old(self).enc(),
                    );
                    &&& old(self).docs().dom().contains(uri@)
                    &&& final(self).next() == old(self).next() + 1
                    &&& final(self).docs() == old(self).docs().insert(uri@, after)
                    &&& same_but_history(before, after)
                    &&& after.last_semantic matches Some((id, sent)) && id == old(self).next()
                        && sent@ == tokens
                    &&& answers(reply, before.last_semantic, opt_text(held), old(self).next(), tokens)
                },
            },
    {
        let ghost docs = self.store.docs();
        let document = match self.snapshot(uri) {
            Some(document) => document,
            None => {
                return None;
            },
        };
        let tokens = self.tokens(&document, None);
        let id = self.next_result;
        self.next_result = id + 1;
        let previous = self.store.replace_semantic_history(uri, (id, copy_tokens(&tokens)));
        proof {
            setting_keeps_consistency(
                docs,
                uri@,
                self.store.docs()[uri@],
                self.analyzer().openers,
            );
        }
        match (previous, held) {
            (Some((last, sent)), Some(held)) => {
                if can_splice(Some(last), held) && sent.len() <= MAX_SPLICED_TOKENS {
                    let splice = semantic_tokens_splice(&sent, &tokens);
                    return Some(SemanticReply::Delta(id, splice));
                }
            },
            _ => {},
        }
        Some(SemanticReply::Full(id, tokens))
    }

    /// The fixes for a part of an open document, and the base definitions that
    /// further fixes need. `None` if the document is not open.
    pub fn actions(&mut self, uri: &str, range: TextRange) -> (out: Option<
        (Vec<ShownEdit>, Vec<CopyRequest>),
    >)
        requires
            old(self).wf(),
        ensures
            final(self).wf(),
            final(self).same_workspace(*old(self)),
            match out {
                None => !old(self).docs().dom().contains(uri@) && final(self).docs() == old(self).docs(),
                Some((offered, requests)) => {
                    let before = old(self).docs()[uri@];
                    let after = final(self).docs()[uri@];
                    let schema = old(self).analyzer().schema;
                    let span = Span {
                        start: old(self).offset(uri@, range.start) as u32,
                        end: old(self).offset(uri@, range.end) as u32,
                    };
                    let found = diagnosed(
                        schema,
                        Some(old(self).names()),
                        Some(uri@),
                        *before.parse,
                    );
                    &&& old(self).docs().dom().contains(uri@)
                    &&& final(self).docs() == old(self).docs().insert(uri@, after)
                    &&& same_but_cache(before, after)
                    &&& item_views(offered@) == shown_fixes(
                        rope_text(before.rope),
                        fixes_of(
                            schema,
                            *before.parse,
                            before.text@,
                            span,
                            found,
                            Some(old(self).names()),
                        ),
                        old(self).enc(),
                    )
                    &&& item_views(requests@) == requests_of(
                        schema,
                        old(self).names(),
                        child_views(before.parse.children@),
                        span,
                        found,
                    ).out
                },
            },
    {
        let ghost docs = self.store.docs();
        let DiagnosticPair { document, cache } = match self.take_cache(uri) {
            Some(pair) => pair,
            None => {
                return None;
            },
        };
        let start = offset_at(&document.rope, range.start, self.encoding);
        let end = offset_at(&document.rope, range.end, self.encoding);
        let span = Span { start, end };
        let mut cache = cache;
        let found = self.diagnose(uri, &document, &mut cache);
        let offered = fixes(
            &self.analyzer,
            &document.parse,
            &document.text,
            span,
            &found,
            Some(&self.index),
        );
        let requests = copy_requests(&self.analyzer, &document.parse, span, &found, &self.index);
        let shown = show_fixes(&document, &offered, self.encoding);
        self.put_cache(uri, document.version, cache);
        assert(self.store.docs() =~= docs.insert(uri@, self.store.docs()[uri@]));
        Some((shown, requests))
    }

    /// The fixes that copy base definitions into an open document, given the
    /// source of each file as far as it could be read. `None` if the document is
    /// not open.
    pub fn copy_actions(
        &self,
        uri: &str,
        requests: &Vec<CopyRequest>,
        sources: &Vec<Option<String>>,
    ) -> (out: Option<Vec<ShownEdit>>)
        requires
            self.wf(),
            sources.len() == requests.len(),
            forall|i: int|
                0 <= i < sources.len() ==> ((#[trigger] sources[i]) matches Some(source) ==> blen(
                    source@,
                ) <= u32::MAX),
        ensures
            match out {
                None => !self.docs().dom().contains(uri@),
                Some(offered) => {
                    let doc = self.docs()[uri@];
                    &&& self.docs().dom().contains(uri@)
                    &&& item_views(offered@) == shown_fixes(
                        rope_text(doc.rope),
                        copy_fixes(
                            self.analyzer().openers,
                            doc.text@,
                            item_views(requests@),
                            sources@,
                            requests@.len(),
                        ),
                        self.enc(),
                    )
                },
            },
    {
        match self.snapshot(uri) {
            None => None,
            Some(document) => {
                let copies = origin_copy_fixes(
                    &self.analyzer,
                    &document.text,
                    requests,
                    sources,
                );
                Some(show_fixes(&document, &copies, self.encoding))
            },
        }
    }
}

/// Where places are, as far as their files can be read: the source of each file
/// is the session's, or else what is on disk.
pub open spec fn located(session: Session, sites: Seq<LocationView>, disks: Seq<Option<String>>) -> Seq<
    ShownSiteView,
>
    decreases sites.len(),
{
    if sites.len() == 0 {
        Seq::empty()
    } else {
        let n = sites.len() - 1;
        let rest = located(session, sites.drop_last(), disks);
        match located_site(session, sites[n], disks[n]) {
            Some(site) => rest.push(site),
            None => rest,
        }
    }
}

/// Where a place is, if its file is a URI with a source whose offsets fit.
pub open spec fn located_site(session: Session, site: LocationView, disk: Option<String>) -> Option<
    ShownSiteView,
> {
    match parsed_uri(site.file) {
        None => None,
        Some((_, _, uri)) => match session.source(uri, opt_string(disk)) {
            None => None,
            Some(text) => if blen(text) <= u32::MAX {
                Some(ShownSiteView { file: uri, range: range_of(text, site.span, session.enc()) })
            } else {
                None
            },
        },
    }
}

impl Session {
    /// The symbol under the cursor.
    pub open spec fn symbol(&self, uri: Seq<char>, pos: Position) -> Option<ReferenceView> {
        let doc = self.docs()[uri];
        if self.docs().dom().contains(uri) {
            path_symbol(
                self.analyzer().schema,
                path_of(
                    child_views(doc.parse.children@),
                    doc.parse.len as int,
                    self.offset(uri, pos),
                    Bias::Right,
                ),
            )
        } else {
            None
        }
    }

    /// The places of a symbol, in order: where it is used, and where it is defined
    /// if `declarations` asks for it.
    pub open spec fn sites(&self, symbol: ReferenceView, declarations: bool) -> Seq<LocationView> {
        without_repeats(
            sorted_sites(
                raw_sites(
                    sites_of(self.facts().references, symbol.kind, symbol.name),
                    self.names().locations_of(symbol.kind, symbol.name),
                    declarations,
                ),
            ),
        )
    }

    /// Where the reference under the cursor is defined. `None` if there is none.
    pub fn definition(&self, uri: &str, pos: Position) -> (out: Option<Vec<Location>>)
        requires
            self.wf(),
        ensures
            ({
                let doc = self.docs()[uri@];
                let reference = path_reference(
                    self.analyzer().schema,
                    path_of(
                        child_views(doc.parse.children@),
                        doc.parse.len as int,
                        self.offset(uri@, pos),
                        Bias::Right,
                    ),
                );
                match out {
                    None => !self.docs().dom().contains(uri@) || reference is None,
                    Some(places) => {
                        &&& self.docs().dom().contains(uri@)
                        &&& reference is Some
                        &&& location_views(places@) == self.names().locations_of(
                            reference->0.kind,
                            reference->0.name,
                        )
                    },
                }
            }),
    {
        let document = match self.snapshot(uri) {
            Some(document) => document,
            None => {
                return None;
            },
        };
        let offset = offset_at(&document.rope, pos, self.encoding);
        match reference_at(&self.analyzer, &document.parse, offset) {
            None => None,
            Some(reference) => {
                let places = self.index.locations(reference.kind, &reference.name);
                Some(copy_locations(places))
            },
        }
    }

    fn symbol_under(&self, uri: &str, pos: Position) -> (out: Option<ReferenceAt>)
        requires
            self.wf(),
        ensures
            opt_reference(out) == self.symbol(uri@, pos),
    {
        match self.snapshot(uri) {
            None => None,
            Some(document) => {
                let offset = offset_at(&document.rope, pos, self.encoding);
                symbol_at(&self.analyzer, &document.parse, offset)
            },
        }
    }

    /// Where the symbol under the cursor is used, and where it is defined if
    /// `declarations` asks for it. `None` if there is no symbol.
    pub fn references(&self, uri: &str, pos: Position, declarations: bool) -> (out: Option<
        Vec<Location>,
    >)
        requires
            self.wf(),
        ensures
            match out {
                None => self.symbol(uri@, pos) is None,
                Some(places) => self.symbol(uri@, pos) matches Some(symbol) && location_views(
                    places@,
                ) == self.sites(symbol, declarations),
            },
    {
        match self.symbol_under(uri, pos) {
            None => None,
            Some(symbol) => Some(
                symbol_sites(&self.index, symbol.kind, &symbol.name, declarations),
            ),
        }
    }

    /// The range of the symbol under the cursor, which a new name replaces. `None`
    /// if there is no symbol.
    pub fn prepare_rename(&self, uri: &str, pos: Position) -> (out: Option<TextRange>)
        requires
            self.wf(),
        ensures
            out == match self.symbol(uri@, pos) {
                None => None,
                Some(symbol) => Some(
                    range_of(rope_text(self.docs()[uri@].rope), symbol.span, self.enc()),
                ),
            },
    {
        match self.symbol_under(uri, pos) {
            None => None,
            Some(symbol) => self.range(uri, symbol.span),
        }
    }

    /// The places that a new name for the symbol under the cursor replaces. `None`
    /// if there is no symbol; an error if the name is not a single token.
    pub fn rename(&self, uri: &str, pos: Position, name: &str) -> (out: Result<
        Option<Vec<Location>>,
        RenameError,
    >)
        requires
            self.wf(),
        ensures
            match out {
                Err(error) => error == RenameError::NotAToken && !single_token(name@),
                Ok(None) => single_token(name@) && self.symbol(uri@, pos) is None,
                Ok(Some(places)) => single_token(name@) && (self.symbol(uri@, pos) matches Some(
                    symbol,
                ) && location_views(places@) == self.sites(symbol, true)),
            },
    {
        if !is_single_token(name) {
            return Err(RenameError::NotAToken);
        }
        Ok(self.references(uri, pos, true))
    }

    /// Where places are, as far as their files can be read, given what is on disk
    /// under each.
    pub fn locate(&self, places: &Vec<Location>, disks: &Vec<Option<String>>) -> (out: Vec<
        ShownSite,
    >)
        requires
            self.wf(),
            disks.len() == places.len(),
        ensures
            item_views(out@) == located(*self, location_views(places@), disks@),
    {
        let ghost all = location_views(places@);
        let mut out: Vec<ShownSite> = Vec::new();
        let mut i: usize = 0;
        assert(all.take(0) =~= Seq::<LocationView>::empty());
        assert(item_views(out@) =~= Seq::<ShownSiteView>::empty());
        while i < places.len()
            invariant
                i <= places.len(),
                self.wf(),
                disks.len() == places.len(),
                all == location_views(places@),
                item_views(out@) == located(*self, all.take(i as int), disks@),
            decreases places.len() - i,
        {
            let ghost before = item_views(out@);
            proof {
                assert(all.take(i + 1).drop_last() =~= all.take(i as int));
                assert(all.take(i + 1).last() == places@[i as int].view());
            }
            if let Some(site) = self.locate_one(&places[i], &disks[i]) {
                let ghost view = site@;
                out.push(site);
                assert(item_views(out@) =~= before.push(view));
            }
            i += 1;
        }
        assert(all.take(i as int) =~= all);
        out
    }

    fn locate_one(&self, place: &Location, disk: &Option<String>) -> (out: Option<ShownSite>)
        requires
            self.wf(),
        ensures
            match out {
                Some(site) => located_site(*self, place.view(), *disk) == Some(site@),
                None => located_site(*self, place.view(), *disk) is None,
            },
    {
        let parts = match parse_uri(&place.file) {
            Some(parts) => parts,
            None => {
                return None;
            },
        };
        let on_disk: Option<&str> = match disk {
            Some(text) => Some(text.as_str()),
            None => None,
        };
        match self.store.rope_for(&parts.text, on_disk) {
            None => None,
            Some(rope) => {
                if rope_bytes(&rope) as u64 > u32::MAX as u64 {
                    return None;
                }
                Some(ShownSite { range: range_at(&rope, place.span, self.encoding), file: parts.text })
            },
        }
    }

    /// The definitions whose name holds `query`, in any case: the first of them.
    pub fn symbols(&self, query: &str) -> (out: Vec<SymbolHit>)
        ensures
            hit_views(out@) == first_hits(
                symbol_hits(self.names().entries, lower(query@)),
                MAX_SYMBOLS as nat,
            ),
    {
        self.index.symbols(query, MAX_SYMBOLS)
    }

    /// The source of a URI, given what is on disk under it. A text that is no URI
    /// has none.
    pub fn source_text(&self, uri: &str, disk: Option<&str>) -> (out: Option<String>)
        requires
            self.wf(),
        ensures
            opt_string(out) == match parsed_uri(uri@) {
                None => None,
                Some((_, _, text)) => self.source(text, opt_text(disk)),
            },
    {
        self.store.source_text(uri, disk)
    }

    /// The text of an archive entry.
    pub fn read_virtual_file(&self, uri: &str) -> (out: Option<String>)
        requires
            self.wf(),
        ensures
            match out {
                Some(text) => self.archived().dom().contains(uri@) && text@
                    == self.archived()[uri@],
                None => !self.archived().dom().contains(uri@),
            },
    {
        self.store.read_virtual_file(uri)
    }

    /// The URI of every open document, in no particular order.
    pub fn open_uris(&self) -> (out: Vec<String>)
        ensures
            string_views(out@).to_set() == self.docs().dom(),
            string_views(out@).no_duplicates(),
    {
        let out = self.store.open_uris();
        proof {
            let uris = string_views(out@);
            assert forall|uri: Seq<char>| #[trigger]
                uris.to_set().contains(uri) <==> self.docs().dom().contains(uri) by {
                if self.docs().dom().contains(uri) {
                    let i = choose|i: int| 0 <= i < out.len() && (#[trigger] out[i])@ == uri;
                    assert(uris[i] == uri);
                }
                if uris.contains(uri) {
                    let i = choose|i: int| 0 <= i < uris.len() && uris[i] == uri;
                    assert(out[i]@ == uri);
                }
            }
            assert(uris.to_set() =~= self.docs().dom());
            assert forall|i: int, j: int|
                0 <= i < uris.len() && 0 <= j < uris.len() && i != j implies uris[i]
                != uris[j] by {
                if i < j {
                    assert(out[i]@ != out[j]@);
                } else {
                    assert(out[j]@ != out[i]@);
                }
            }
        }
        out
    }

    /// The version of an open document.
    pub fn version(&self, uri: &str) -> (out: Option<i32>)
        requires
            self.wf(),
        ensures
            out == (if self.docs().dom().contains(uri@) {
                Some(self.docs()[uri@].version)
            } else {
                None
            }),
    {
        match self.snapshot(uri) {
            None => None,
            Some(document) => Some(document.version),
        }
    }

    /// How many base INI files the last scan indexed.
    pub fn base_indexed(&self) -> (count: usize)
        ensures
            count == self.hint().base_indexed,
    {
        self.hint.base_indexed
    }

    /// How many models the index knows of.
    pub fn model_count(&self) -> (count: usize)
        ensures
            count == model_names_of(all_items(self.facts().models)).len(),
    {
        let names = self.index.model_names();
        assert(str_views(names@).len() == names@.len());
        names.len()
    }

    /// Take what a scan found into the index and the archive entries, and count
    /// it. Open documents are indexed from their own text instead.
    pub fn take_scan(&mut self, entries: Vec<(bool, ScanEntry)>) -> (totals: ScanTotals)
        requires
            old(self).wf(),
            old(self).names().generation + entries.len() <= u64::MAX,
        ensures
            final(self).wf(),
            final(self).analyzer() == old(self).analyzer(),
            final(self).enc() == old(self).enc(),
            final(self).next() == old(self).next(),
            final(self).docs() == old(self).docs(),
            final(self).workspace() == with_scans(
                old(self).workspace(),
                entries@,
                old(self).docs().dom(),
            ),
            totals.base_ini == count_ini(entries@, true, entries@.len()),
            totals.ini == count_ini(entries@, false, entries@.len()),
            totals.models == count_models(entries@, entries@.len()),
            final(self).hint() == (HintState {
                scan_finished: true,
                base_indexed: totals.base_ini,
                ..old(self).hint()
            }),
    {
        let totals = scan_totals(&entries);
        let open = self.open_uris();
        let ghost before = self.workspace();
        let ghost all = entries@;
        apply_scan(&mut self.index, &mut self.store, entries, &open);
        proof {
            lemma_scans_follow(before, all, self.docs().dom());
            lemma_caches_follow(
                self.store.docs(),
                self.analyzer(),
                before.index,
                self.index.view(),
            );
        }
        self.hint = HintState {
            scan_finished: true,
            base_indexed: totals.base_ini,
            roots_empty: self.hint.roots_empty,
            client_hint: self.hint.client_hint,
            shown: self.hint.shown,
        };
        totals
    }

    /// The index, the other facts and the archive entries.
    pub open spec fn workspace(&self) -> Workspace {
        Workspace { index: self.names(), facts: self.facts(), archived: self.archived() }
    }

    /// Whether to hint at missing base roots for a document now. The hint then
    /// counts as shown.
    pub fn take_hint(&mut self, uri: &str) -> (due: bool)
        requires
            old(self).wf(),
        ensures
            final(self).wf(),
            final(self).analyzer() == old(self).analyzer(),
            final(self).docs() == old(self).docs(),
            final(self).workspace() == old(self).workspace(),
            final(self).enc() == old(self).enc(),
            final(self).next() == old(self).next(),
            due == hint_due(uri@, old(self).hint()),
            final(self).hint() == (HintState {
                shown: old(self).hint().shown || due,
                ..old(self).hint()
            }),
    {
        take_base_roots_hint(uri, &mut self.hint)
    }
}

fn copy_locations(places: &[Location]) -> (out: Vec<Location>)
    ensures
        location_views(out@) == location_views(places@),
{
    let mut out: Vec<Location> = Vec::new();
    let mut i: usize = 0;
    while i < places.len()
        invariant
            i <= places.len(),
            out.len() == i,
            forall|j: int| 0 <= j < i ==> (#[trigger] out[j]).view() == places@[j].view(),
        decreases places.len() - i,
    {
        out.push(Location { file: places[i].file.clone(), span: places[i].span });
        i += 1;
    }
    assert(location_views(out@) =~= location_views(places@));
    out
}

proof fn lemma_scans_follow(
    workspace: Workspace,
    entries: Seq<(bool, ScanEntry)>,
    open: Set<Seq<char>>,
)
    requires
        consistent(workspace.index),
    ensures
        follows(with_scans(workspace, entries, open).index, workspace.index),
    decreases entries.len(),
{
    if entries.len() > 0 {
        lemma_scans_follow(workspace, entries.drop_last(), open);
        let before = with_scans(workspace, entries.drop_last(), open).index;
        let entry = entries.last().1@;
        set_file_keeps_consistency(before, entry.file, entry.definitions);
        set_file_generation_tracks_names(before, entry.file, entry.definitions);
    }
}

/// The most tokens that a splice can remove: its numbers count five to a token.
pub const MAX_SPLICED_TOKENS: usize = 858_993_459;

/// Whether `reply` answers a request for tokens: with all of them, or, where the
/// client holds the result that was sent last, with what has changed since.
pub open spec fn answers(
    reply: SemanticReply,
    last: Option<(u64, Vec<WireToken>)>,
    held: Option<Seq<char>>,
    id: u64,
    tokens: Seq<WireToken>,
) -> bool {
    match (last, held) {
        (Some((number, sent)), Some(held)) => if holds_result(Some(number), held) && sent.len()
            <= MAX_SPLICED_TOKENS {
            let (prefix, sent_end, end) = splice_bounds(sent@, tokens);
            reply matches SemanticReply::Delta(given, splice) && given == id && splice.start
                == prefix * 5 && splice.delete_count == (sent_end - prefix) * 5 && splice.data@
                == tokens.subrange(prefix, end)
        } else {
            reply matches SemanticReply::Full(given, all) && given == id && all@ == tokens
        },
        _ => reply matches SemanticReply::Full(given, all) && given == id && all@ == tokens,
    }
}

fn copy_tokens(tokens: &Vec<WireToken>) -> (out: Vec<WireToken>)
    ensures
        out@ == tokens@,
{
    let mut out: Vec<WireToken> = Vec::new();
    let mut i: usize = 0;
    while i < tokens.len()
        invariant
            i <= tokens.len(),
            out@ == tokens@.take(i as int),
        decreases tokens.len() - i,
    {
        out.push(tokens[i]);
        assert(tokens@.take(i + 1) =~= tokens@.take(i as int).push(tokens@[i as int]));
        i += 1;
    }
    assert(tokens@.take(i as int) =~= tokens@);
    out
}

proof fn lemma_apart_is_sorted(tokens: Seq<SemToken>, end: int)
    requires
        crate::semantic::apart(tokens),
        crate::semantic::ends_by(tokens, end),
    ensures
        sorted_by_start(tokens),
{
    assert forall|i: int, j: int| #![trigger tokens[i], tokens[j]]
        0 <= i < j < tokens.len() implies tokens[i].span.start <= tokens[j].span.start by {
        assert(tokens[i].span.end <= tokens[j].span.start);
    }
}

/// A document and its diagnostics cache, taken out of the session.
struct DiagnosticPair {
    document: DocumentSnapshot,
    cache: DiagnosticsCache,
}

proof fn lemma_cache_follows(
    cache: DiagnosticsCache,
    analyzer: Analyzer,
    earlier: IndexView,
    later: IndexView,
    uri: Seq<char>,
)
    requires
        cache_serves(cache, analyzer, earlier, uri),
        follows(later, earlier),
    ensures
        cache_serves(cache, analyzer, later, uri),
{
}

proof fn lemma_caches_follow(
    docs: Map<Seq<char>, DocumentState>,
    analyzer: Analyzer,
    earlier: IndexView,
    later: IndexView,
)
    requires
        caches_serve(docs, analyzer, earlier),
        follows(later, earlier),
    ensures
        caches_serve(docs, analyzer, later),
{
    assert forall|uri: Seq<char>| #[trigger] docs.dom().contains(uri) implies cache_serves(
        docs[uri].diag_cache,
        analyzer,
        later,
        uri,
    ) by {
        lemma_cache_follows(docs[uri].diag_cache, analyzer, earlier, later, uri);
    }
}

// ---------------------------------------------------------------------------
// Laws
// ---------------------------------------------------------------------------
/// Law: indexing a file never lets a stale diagnostics cache be used. Where the
/// set of defined names changes, so does the generation that the caches are held
/// to; where it does not, what they hold is what would be computed.
pub proof fn indexing_keeps_caches_usable(
    docs: Map<Seq<char>, DocumentState>,
    analyzer: Analyzer,
    index: IndexView,
    file: Seq<char>,
    defs: Seq<DefinitionView>,
)
    requires
        consistent(index),
        caches_serve(docs, analyzer, index),
    ensures
        follows(index.set_file(file, defs), index),
        caches_serve(docs, analyzer, index.set_file(file, defs)),
{
    set_file_keeps_consistency(index, file, defs);
    set_file_generation_tracks_names(index, file, defs);
    lemma_caches_follow(docs, analyzer, index, index.set_file(file, defs));
}

/// Law: a rename replaces every use and every definition of the symbol.
pub proof fn rename_reaches_every_place(session: Session, symbol: ReferenceView, place: LocationView)
    ensures
        session.sites(symbol, true).contains(place) <==> sites_of(
            session.facts().references,
            symbol.kind,
            symbol.name,
        ).contains(place) || session.names().locations_of(symbol.kind, symbol.name).contains(place),
{
    let used = sites_of(session.facts().references, symbol.kind, symbol.name);
    let defined = session.names().locations_of(symbol.kind, symbol.name);
    sites_cover_every_place(used + defined, place);
    if used.contains(place) {
        let i = choose|i: int| 0 <= i < used.len() && used[i] == place;
        assert((used + defined)[i] == place);
    }
    if defined.contains(place) {
        let i = choose|i: int| 0 <= i < defined.len() && defined[i] == place;
        assert((used + defined)[used.len() + i] == place);
    }
    if (used + defined).contains(place) {
        let i = choose|i: int| 0 <= i < (used + defined).len() && (used + defined)[i] == place;
        if i < used.len() {
            assert(used[i] == place);
        } else {
            assert(defined[i - used.len()] == place);
        }
    }
}

/// Law: a client that holds the tokens sent last and applies the splice that it
/// is answered with holds the tokens of the document as it is now.
pub proof fn splices_bring_clients_up_to_date(
    reply: SemanticReply,
    last: (u64, Vec<WireToken>),
    held: Seq<char>,
    id: u64,
    tokens: Seq<WireToken>,
)
    requires
        answers(reply, Some(last), Some(held), id, tokens),
    ensures
        match reply {
            SemanticReply::Full(_, all) => all@ == tokens,
            SemanticReply::Delta(_, splice) => spliced(
                last.1@,
                splice.start as int,
                splice.delete_count as int,
                splice.data@,
            ) == tokens,
        },
{
    if reply is Delta {
        lemma_bounds(last.1@, tokens);
        let (prefix, sent_end, end) = splice_bounds(last.1@, tokens);
        assert(tokens =~= tokens.take(prefix) + tokens.subrange(prefix, end) + tokens.skip(end));
    }
}

} // verus!
