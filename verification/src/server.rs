//! What the language server decides between requests.

use vstd::prelude::*;
use vstd::string::*;

use crate::diagnostics::{is_override_layer, override_layer};
use crate::convert::{negotiate_encoding, offers_utf8, PositionEnc};
use crate::document::DocumentStore;
use crate::facts::{item_views, with_record, FactsView};
use crate::index::{IndexView, WorkspaceIndex};
use crate::ingest::{ScanEntry, ScanView};
use crate::names::{is_blank_text, trimmed};
use crate::scan::MAX_PREVIEW_ASSET_BYTES;
use crate::text::{has_text, same, string_views};

verus! {

// ---------------------------------------------------------------------------
// Hints
// ---------------------------------------------------------------------------
/// Whether a file is loaded as a map override, by its name.
pub fn is_map_layer_file(file: &str) -> (yes: bool)
    ensures
        yes == override_layer(file@),
{
    is_override_layer(file)
}

/// What the hint about missing base roots depends on.
#[derive(Debug, Clone, Copy, PartialEq, Eq, Structural)]
pub struct HintState {
    /// A scan has finished.
    pub scan_finished: bool,
    /// How many base INI files were indexed.
    pub base_indexed: usize,
    /// No base roots are configured.
    pub roots_empty: bool,
    /// The client shows the hint for empty roots itself.
    pub client_hint: bool,
    /// The hint was shown.
    pub shown: bool,
}

/// Whether to hint at missing base roots: once, for a map override, after a scan
/// that found no base files, unless the client does it.
pub open spec fn hint_due(file: Seq<char>, state: HintState) -> bool {
    override_layer(file) && state.scan_finished && state.base_indexed == 0 && !(state.roots_empty
        && state.client_hint) && !state.shown
}

/// Whether to hint at missing base roots now. The hint then counts as shown.
pub fn take_base_roots_hint(file: &str, state: &mut HintState) -> (due: bool)
    ensures
        due == hint_due(file@, *old(state)),
        *final(state) == (HintState { shown: old(state).shown || due, ..*old(state) }),
{
    if is_override_layer(file) && state.scan_finished && state.base_indexed == 0 && !(
    state.roots_empty && state.client_hint) && !state.shown {
        state.shown = true;
        true
    } else {
        false
    }
}

// ---------------------------------------------------------------------------
// Progress
// ---------------------------------------------------------------------------
/// How much of a scan is done, in percent.
pub open spec fn percent_of(done: int, total: int) -> int {
    done * 100 / if total > 0 {
        total
    } else {
        1
    }
}

/// How much of a scan is done, in percent.
pub fn percent(done: usize, total: usize) -> (out: u32)
    requires
        done <= total,
    ensures
        out == percent_of(done as int, total as int),
        out <= 100,
{
    let whole: u128 = if total > 0 {
        total as u128
    } else {
        1
    };
    proof {
        let d = done as int;
        let t = whole as int;
        assert(0 <= d * 100 / t <= 100) by (nonlinear_arith)
            requires
                0 <= d <= t || d == 0,
                t > 0,
        ;
    }
    (done as u128 * 100 / whole) as u32
}

/// No progress report says more than all.
pub fn clamp_percentage(percentage: Option<u32>) -> (out: Option<u32>)
    ensures
        match percentage {
            Some(value) => out == Some(
                if value <= 100 {
                    value
                } else {
                    100
                },
            ),
            None => out is None,
        },
{
    match percentage {
        Some(value) => if value <= 100 {
            Some(value)
        } else {
            Some(100)
        },
        None => None,
    }
}

/// Reports of a scan's progress, thinned out to whole percents.
#[derive(Debug, Clone, Copy, PartialEq, Eq, Structural)]
pub struct Throttle {
    pub done: usize,
    pub total: usize,
    pub last: Option<u32>,
}

impl Throttle {
    pub fn new(total: usize) -> (throttle: Self)
        ensures
            throttle == (Throttle { done: 0, total, last: None }),
    {
        Throttle { done: 0, total, last: None }
    }

    /// Whether one more file is worth a report: the percentage changes, or the
    /// scan is done.
    pub open spec fn reports(&self) -> bool {
        self.last != Some(percent_of(self.done + 1, self.total as int) as u32) || self.done + 1
            == self.total
    }

    /// Count one more file; whether to report it.
    pub fn advance(&mut self) -> (report: bool)
        requires
            old(self).done < old(self).total,
        ensures
            report == old(self).reports(),
            final(self).done == old(self).done + 1,
            final(self).total == old(self).total,
            final(self).last == if report {
                Some(percent_of(old(self).done + 1, old(self).total as int) as u32)
            } else {
                old(self).last
            },
    {
        self.done = self.done + 1;
        let now = percent(self.done, self.total);
        let changed = match self.last {
            Some(last) => last != now,
            None => true,
        };
        if changed || self.done == self.total {
            self.last = Some(now);
            true
        } else {
            false
        }
    }
}

// ---------------------------------------------------------------------------
// Scans
// ---------------------------------------------------------------------------
/// Whether an entry is that of an INI file.
pub open spec fn is_ini(entry: ScanView) -> bool {
    entry.models.len() == 0 && entry.assets.len() == 0
}

/// How many of the first `n` entries are of INI files, counting base entries only
/// if `base` says so.
pub open spec fn count_ini(entries: Seq<(bool, ScanEntry)>, base: bool, n: nat) -> nat
    decreases n,
{
    if n == 0 {
        0
    } else {
        count_ini(entries, base, (n - 1) as nat) + if is_ini(entries[n - 1].1@) && (!base
            || entries[n - 1].0) {
            1nat
        } else {
            0nat
        }
    }
}

/// How many models the first `n` entries hold.
pub open spec fn count_models(entries: Seq<(bool, ScanEntry)>, n: nat) -> nat
    decreases n,
{
    if n == 0 {
        0
    } else {
        count_models(entries, (n - 1) as nat) + entries[n - 1].1.models@.len()
    }
}

/// What a scan found: base INI files, INI files in all, and models.
#[derive(Debug, Clone, Copy, PartialEq, Eq, Structural)]
pub struct ScanTotals {
    pub base_ini: usize,
    pub ini: usize,
    pub models: u128,
}

/// Count what a scan found.
pub fn scan_totals(entries: &Vec<(bool, ScanEntry)>) -> (out: ScanTotals)
    ensures
        out.base_ini == count_ini(entries@, true, entries@.len()),
        out.ini == count_ini(entries@, false, entries@.len()),
        out.models == count_models(entries@, entries@.len()),
{
    let mut base_ini: usize = 0;
    let mut ini: usize = 0;
    let mut models: u128 = 0;
    let mut i: usize = 0;
    while i < entries.len()
        invariant
            i <= entries.len(),
            base_ini == count_ini(entries@, true, i as nat),
            ini == count_ini(entries@, false, i as nat),
            base_ini <= i,
            ini <= i,
            models == count_models(entries@, i as nat),
            models <= i * usize::MAX,
        decreases entries.len() - i,
    {
        let (is_base, entry) = &entries[i];
        assert(item_views(entry.models@).len() == entry.models@.len());
        assert(item_views(entry.assets@).len() == entry.assets@.len());
        if entry.models.len() == 0 && entry.assets.len() == 0 {
            ini += 1;
            if *is_base {
                base_ini += 1;
            }
        }
        proof {
            let k = i as int;
            let m = usize::MAX as int;
            assert((k + 1) * m == k * m + m) by (nonlinear_arith);
            assert(k * m + m <= m * m) by (nonlinear_arith)
                requires
                    0 <= k < m,
            ;
            assert(m * m <= u128::MAX) by (nonlinear_arith)
                requires
                    0 <= m <= u64::MAX,
            ;
        }
        models = models + entry.models.len() as u128;
        i += 1;
    }
    ScanTotals { base_ini, ini, models }
}

/// The index, the other facts and the archive entries.
pub struct Workspace {
    pub index: IndexView,
    pub facts: FactsView,
    pub archived: Map<Seq<char>, Seq<char>>,
}

/// A workspace with one more scan entry. The text of an archive entry is kept;
/// an open document is indexed from its live text instead.
pub open spec fn with_scan(workspace: Workspace, entry: ScanView, open: Set<Seq<char>>) -> Workspace {
    let archived = match entry.text {
        Some(text) => workspace.archived.insert(entry.file, text),
        None => workspace.archived,
    };
    if open.contains(entry.file) {
        Workspace { archived, ..workspace }
    } else {
        Workspace {
            index: workspace.index.set_file(entry.file, entry.definitions),
            facts: FactsView {
                references: with_record(
                    workspace.facts.references,
                    entry.file,
                    entry.references,
                ),
                tags: with_record(workspace.facts.tags, entry.file, entry.tags),
                models: with_record(workspace.facts.models, entry.file, entry.models),
                keys: workspace.facts.keys,
            },
            archived,
        }
    }
}

/// A workspace with a list of scan entries, in their order.
pub open spec fn with_scans(
    workspace: Workspace,
    entries: Seq<(bool, ScanEntry)>,
    open: Set<Seq<char>>,
) -> Workspace
    decreases entries.len(),
{
    if entries.len() == 0 {
        workspace
    } else {
        with_scan(
            with_scans(workspace, entries.drop_last(), open),
            entries.last().1@,
            open,
        )
    }
}

pub open spec fn workspace_of(index: WorkspaceIndex, store: DocumentStore) -> Workspace {
    Workspace { index: index.view(), facts: index.facts(), archived: store.archived() }
}

proof fn lemma_generation(
    workspace: Workspace,
    entries: Seq<(bool, ScanEntry)>,
    open: Set<Seq<char>>,
)
    ensures
        with_scans(workspace, entries, open).index.generation <= workspace.index.generation
            + entries.len(),
    decreases entries.len(),
{
    if entries.len() > 0 {
        lemma_generation(workspace, entries.drop_last(), open);
    }
}

/// Take what a scan found into the index and the store.
pub fn apply_scan(
    index: &mut WorkspaceIndex,
    store: &mut DocumentStore,
    entries: Vec<(bool, ScanEntry)>,
    open: &Vec<String>,
)
    requires
        old(store).wf(),
        old(index).view().generation + entries.len() <= u64::MAX,
    ensures
        final(store).wf(),
        final(store).docs() == old(store).docs(),
        workspace_of(*final(index), *final(store)) == with_scans(
            workspace_of(*old(index), *old(store)),
            entries@,
            string_views(open@).to_set(),
        ),
{
    let ghost start = workspace_of(*index, *store);
    let ghost all = entries@;
    let ghost uris = string_views(open@).to_set();
    assert(all.take(0) =~= Seq::<(bool, ScanEntry)>::empty());
    for item in it: entries
        invariant
            it.seq() == all,
            uris == string_views(open@).to_set(),
            store.wf(),
            store.docs() == old(store).docs(),
            start.index.generation + all.len() <= u64::MAX,
            workspace_of(*index, *store) == with_scans(start, all.take(it.index()), uris),
    {
        let ghost before = workspace_of(*index, *store);
        let ghost entry = item.1@;
        proof {
            lemma_generation(start, all.take(it.index()), uris);
            assert(all.take(it.index() + 1).drop_last() =~= all.take(it.index()));
            assert(all.take(it.index() + 1).last() == item);
        }
        let (_, scanned) = item;
        if let Some(text) = scanned.text {
            store.insert_virtual_file(&scanned.file, text);
        }
        if !has_text(open, &scanned.file) {
            index.set_file(&scanned.file, scanned.definitions);
            index.set_file_refs(&scanned.file, scanned.references);
            index.set_file_tags(&scanned.file, scanned.tags);
            index.set_file_models(&scanned.file, scanned.models);
        }
        assert(workspace_of(*index, *store) == with_scan(before, entry, uris));
    }
    assert(all.take(all.len() as int) =~= all);
}

// ---------------------------------------------------------------------------
// Settings
// ---------------------------------------------------------------------------
/// The base roots that were configured: those that are not blank.
pub open spec fn real_roots(roots: Seq<Seq<char>>) -> Seq<Seq<char>>
    decreases roots.len(),
{
    if roots.len() == 0 {
        Seq::empty()
    } else if trimmed(roots.last()).len() == 0 {
        real_roots(roots.drop_last())
    } else {
        real_roots(roots.drop_last()).push(roots.last())
    }
}

/// The base roots that were configured.
pub fn configured_roots(roots: &Vec<String>) -> (out: Vec<String>)
    ensures
        string_views(out@) == real_roots(string_views(roots@)),
{
    let ghost all = string_views(roots@);
    let mut out: Vec<String> = Vec::new();
    let mut i: usize = 0;
    assert(all.take(0) =~= Seq::<Seq<char>>::empty());
    assert(string_views(out@) =~= Seq::<Seq<char>>::empty());
    while i < roots.len()
        invariant
            i <= roots.len(),
            all == string_views(roots@),
            string_views(out@) == real_roots(all.take(i as int)),
        decreases roots.len() - i,
    {
        let ghost before = string_views(out@);
        proof {
            assert(all.take(i + 1).drop_last() =~= all.take(i as int));
            assert(all.take(i + 1).last() == roots@[i as int]@);
        }
        if !is_blank_text(&roots[i]) {
            out.push(roots[i].clone());
            assert(string_views(out@) =~= before.push(all[i as int]));
        }
        i += 1;
    }
    assert(all.take(i as int) =~= all);
    out
}

/// How bones and subobjects are checked against the models that may apply.
#[derive(Debug, Clone, Copy, PartialEq, Eq, Structural)]
pub enum ModelMemberStrictness {
    /// Not at all.
    Off,
    /// They have to be in some model.
    Compatible,
    /// They have to be in every model.
    Strict,
}

/// The strictness that an option names; anything else is the default.
pub open spec fn strictness_of(option: Option<Seq<char>>) -> ModelMemberStrictness {
    if option == Some("off"@) {
        ModelMemberStrictness::Off
    } else if option == Some("strict"@) {
        ModelMemberStrictness::Strict
    } else {
        ModelMemberStrictness::Compatible
    }
}

fn read_strictness(option: &Option<String>) -> (strictness: ModelMemberStrictness)
    ensures
        strictness == strictness_of(
            match option {
                Some(name) => Some(name@),
                None => None,
            },
        ),
{
    match option {
        Some(name) => {
            if same(name, "off") {
                ModelMemberStrictness::Off
            } else if same(name, "strict") {
                ModelMemberStrictness::Strict
            } else {
                ModelMemberStrictness::Compatible
            }
        },
        None => ModelMemberStrictness::Compatible,
    }
}

/// What a client says when a session begins, as far as it says anything.
#[derive(Debug)]
pub struct ClientOptions {
    /// The position encodings it offers.
    pub encodings: Vec<String>,
    /// Whether documents are formatted.
    pub format: Option<bool>,
    /// A schema to use in place of the built-in one.
    pub schema_path: Option<String>,
    /// Where the files of the base game are.
    pub base_roots: Option<Vec<String>>,
    /// Whether the client shows the hint for empty roots itself.
    pub base_hint: Option<bool>,
    /// How bones and subobjects are checked: `off`, `compatible` or `strict`.
    pub member_strictness: Option<String>,
    /// Whether it takes snippets.
    pub snippets: Option<bool>,
    /// Whether it shows progress.
    pub progress: Option<bool>,
}

/// The settings of a session.
#[derive(Debug)]
pub struct Settings {
    pub encoding: PositionEnc,
    pub format: bool,
    pub schema_path: Option<String>,
    pub base_roots: Vec<String>,
    pub base_hint: bool,
    pub member_strictness: ModelMemberStrictness,
    pub snippets: bool,
    pub progress: bool,
}

/// What is left of an option that need not be given.
pub open spec fn is_set(option: Option<bool>) -> bool {
    option == Some(true)
}

fn read_flag(option: Option<bool>) -> (yes: bool)
    ensures
        yes == is_set(option),
{
    match option {
        Some(yes) => yes,
        None => false,
    }
}

/// The settings for a client: what it leaves out is off or empty, and a blank
/// path is none.
pub fn settings_of(options: ClientOptions) -> (settings: Settings)
    ensures
        settings.encoding == if offers_utf8(options.encodings@) {
            PositionEnc::Utf8
        } else {
            PositionEnc::Utf16
        },
        settings.format == is_set(options.format),
        settings.schema_path == match options.schema_path {
            Some(path) => if trimmed(path@).len() == 0 {
                None
            } else {
                Some(path)
            },
            None => None,
        },
        string_views(settings.base_roots@) == match options.base_roots {
            Some(roots) => real_roots(string_views(roots@)),
            None => Seq::empty(),
        },
        settings.base_hint == is_set(options.base_hint),
        settings.member_strictness == strictness_of(
            match options.member_strictness {
                Some(name) => Some(name@),
                None => None,
            },
        ),
        settings.snippets == is_set(options.snippets),
        settings.progress == is_set(options.progress),
{
    let schema_path = match options.schema_path {
        Some(path) => {
            if is_blank_text(&path) {
                None
            } else {
                Some(path)
            }
        },
        None => None,
    };
    let base_roots = match options.base_roots {
        Some(roots) => configured_roots(&roots),
        None => {
            let none: Vec<String> = Vec::new();
            assert(string_views(none@) =~= Seq::<Seq<char>>::empty());
            none
        },
    };
    Settings {
        encoding: negotiate_encoding(&options.encodings),
        format: read_flag(options.format),
        schema_path,
        base_roots,
        base_hint: read_flag(options.base_hint),
        member_strictness: read_strictness(&options.member_strictness),
        snippets: read_flag(options.snippets),
        progress: read_flag(options.progress),
    }
}

/// A number of blanks.
pub open spec fn blanks(n: nat) -> Seq<char> {
    Seq::new(n, |i: int| ' ')
}

/// One step of indentation: blanks, or a tab.
pub fn indent_unit(insert_spaces: bool, tab_size: u32) -> (out: String)
    ensures
        out@ == if insert_spaces {
            blanks(tab_size as nat)
        } else {
            seq!['\t']
        },
{
    let mut out = String::new();
    if !insert_spaces {
        out.push('\t');
        assert(out@ =~= seq!['\t']);
        return out;
    }
    let mut i: u32 = 0;
    assert(out@ =~= blanks(0));
    while i < tab_size
        invariant
            i <= tab_size,
            out@ == blanks(i as nat),
        decreases tab_size - i,
    {
        out.push(' ');
        assert(blanks((i + 1) as nat) =~= blanks(i as nat).push(' '));
        i += 1;
    }
    out
}

/// Whether an asset is small enough to be read for a preview.
pub fn fits_preview(size: u64) -> (yes: bool)
    ensures
        yes == (size <= MAX_PREVIEW_ASSET_BYTES),
{
    size <= MAX_PREVIEW_ASSET_BYTES
}

// ---------------------------------------------------------------------------
// Laws
// ---------------------------------------------------------------------------
/// Law: the hint is shown at most once.
pub proof fn hint_is_shown_once(file: Seq<char>, other: Seq<char>, state: HintState)
    requires
        hint_due(file, state),
    ensures
        !hint_due(other, HintState { shown: true, ..state }),
{
}

/// Law: a scan never touches what an open document contributes.
pub proof fn scans_spare_open_documents(
    workspace: Workspace,
    entry: ScanView,
    open: Set<Seq<char>>,
)
    requires
        open.contains(entry.file),
    ensures
        with_scan(workspace, entry, open).index == workspace.index,
        with_scan(workspace, entry, open).facts == workspace.facts,
{
}

/// Law: the last file of a scan is always reported, as all of it.
pub proof fn last_file_is_reported(throttle: Throttle)
    requires
        throttle.done + 1 == throttle.total,
    ensures
        throttle.reports(),
        percent_of(throttle.done + 1, throttle.total as int) == 100,
{
    let t = throttle.total as int;
    assert(t * 100 / t == 100) by (nonlinear_arith)
        requires
            t > 0,
    ;
}

} // verus!
