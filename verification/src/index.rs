//! Cross-file symbol index: which named definitions (objects, weapons, ...)
//! exist across the workspace, and where. Powers reference diagnostics,
//! reference completions, and go-to-definition.
//!
//! Name lookup is case-insensitive, as in the engine.

use vstd::prelude::*;
use vstd::string::*;

use crate::analyzer::{str_views, Analyzer, Span};
use crate::ast::Block;
use crate::facts::{
    all_items, item_views, knows_model, members_of, model_names_of, record_position, set_record, sites_of,
    tags_of, with_record, Facts, FactsView, ModelAsset, ModuleTag,
};
use crate::kind::SyntaxKind;
use crate::nav::ReferenceAt;
use crate::parser::{child_views, ChildView, Parse};
use crate::schema::{block_named, RefKind, Schema};
use crate::text::{chars_of, lower, same};
use crate::tree::{ElementView, SyntaxElement};

verus! {

/// A definition's location within a file.
#[derive(Debug, PartialEq, Eq)]
pub struct Location {
    pub file: String,
    pub span: Span,
}

#[verifier::ext_equal]
pub struct LocationView {
    pub file: Seq<char>,
    pub span: Span,
}

impl Location {
    pub open spec fn view(&self) -> LocationView {
        LocationView { file: self.file@, span: self.span }
    }
}

pub open spec fn location_views(s: Seq<Location>) -> Seq<LocationView> {
    Seq::new(s.len(), |i: int| s[i].view())
}

/// A named definition discovered in a document.
#[derive(Debug, PartialEq, Eq)]
pub struct Definition {
    pub name: String,
    pub kind: RefKind,
    pub span: Span,
}

#[verifier::ext_equal]
pub struct DefinitionView {
    pub name: Seq<char>,
    pub kind: RefKind,
    pub span: Span,
}

impl Definition {
    pub open spec fn view(&self) -> DefinitionView {
        DefinitionView { name: self.name@, kind: self.kind, span: self.span }
    }
}

pub open spec fn definition_views(s: Seq<Definition>) -> Seq<DefinitionView> {
    Seq::new(s.len(), |i: int| s[i].view())
}

/// A definition name's entry: display casing plus all its locations.
#[derive(Debug)]
struct NameEntry {
    kind: RefKind,
    /// The name in lower case.
    name: String,
    /// The name as first written (for completion display).
    display: String,
    locations: Vec<Location>,
}

#[verifier::ext_equal]
pub struct EntryView {
    pub kind: RefKind,
    pub name: Seq<char>,
    pub display: Seq<char>,
    pub locations: Seq<LocationView>,
}

impl NameEntry {
    spec fn view(&self) -> EntryView {
        EntryView {
            kind: self.kind,
            name: self.name@,
            display: self.display@,
            locations: location_views(self.locations@),
        }
    }
}

spec fn entry_views(s: Seq<NameEntry>) -> Seq<EntryView> {
    Seq::new(s.len(), |i: int| s[i].view())
}

/// A lower-case definition name.
#[derive(Debug)]
struct DefinedName {
    kind: RefKind,
    name: String,
}

/// The names that a file defines, in order.
#[derive(Debug)]
struct FileNames {
    file: String,
    names: Vec<DefinedName>,
}

#[verifier::ext_equal]
pub struct FileView {
    pub file: Seq<char>,
    pub names: Seq<(RefKind, Seq<char>)>,
}

spec fn name_views(s: Seq<DefinedName>) -> Seq<(RefKind, Seq<char>)> {
    Seq::new(s.len(), |i: int| (s[i].kind, s[i].name@))
}

impl FileNames {
    spec fn view(&self) -> FileView {
        FileView { file: self.file@, names: name_views(self.names@) }
    }
}

spec fn file_views(s: Seq<FileNames>) -> Seq<FileView> {
    Seq::new(s.len(), |i: int| s[i].view())
}

/// The contents of the index: the defined names with their locations, and the
/// names that each file defines.
#[verifier::ext_equal]
pub struct IndexView {
    pub entries: Seq<EntryView>,
    pub files: Seq<FileView>,
    pub generation: int,
}

/// The locations outside `file`.
pub open spec fn locations_elsewhere(s: Seq<LocationView>, file: Seq<char>) -> Seq<LocationView>
    decreases s.len(),
{
    if s.len() == 0 {
        Seq::empty()
    } else if s.last().file != file {
        locations_elsewhere(s.drop_last(), file).push(s.last())
    } else {
        locations_elsewhere(s.drop_last(), file)
    }
}

/// The entries without what `file` contributes; a name without locations goes.
pub open spec fn without_file(entries: Seq<EntryView>, file: Seq<char>) -> Seq<EntryView>
    decreases entries.len(),
{
    if entries.len() == 0 {
        Seq::empty()
    } else {
        let rest = without_file(entries.drop_last(), file);
        let kept = locations_elsewhere(entries.last().locations, file);
        if kept.len() == 0 {
            rest
        } else {
            rest.push(EntryView { locations: kept, ..entries.last() })
        }
    }
}

/// The position of the entry for a lower-case name, or the number of entries.
pub open spec fn entry_position(entries: Seq<EntryView>, kind: RefKind, name: Seq<char>) -> int
    decreases entries.len(),
{
    if entries.len() == 0 {
        0
    } else {
        let before = entry_position(entries.drop_last(), kind, name);
        if before < entries.len() - 1 {
            before
        } else if entries.last().kind == kind && entries.last().name == name {
            entries.len() - 1
        } else {
            entries.len() as int
        }
    }
}

/// The entries with one more definition.
pub open spec fn with_definition(
    entries: Seq<EntryView>,
    file: Seq<char>,
    def: DefinitionView,
) -> Seq<EntryView> {
    let i = entry_position(entries, def.kind, lower(def.name));
    let location = LocationView { file, span: def.span };
    if i < entries.len() {
        entries.update(
            i,
            EntryView { locations: entries[i].locations.push(location), ..entries[i] },
        )
    } else {
        entries.push(
            EntryView {
                kind: def.kind,
                name: lower(def.name),
                display: def.name,
                locations: seq![location],
            },
        )
    }
}

/// The entries with the definitions of a file.
pub open spec fn with_definitions(
    entries: Seq<EntryView>,
    file: Seq<char>,
    defs: Seq<DefinitionView>,
) -> Seq<EntryView>
    decreases defs.len(),
{
    if defs.len() == 0 {
        entries
    } else {
        with_definition(with_definitions(entries, file, defs.drop_last()), file, defs.last())
    }
}

/// The names that a list of definitions defines, in lower case.
pub open spec fn defined_names(defs: Seq<DefinitionView>) -> Seq<(RefKind, Seq<char>)> {
    Seq::new(defs.len(), |i: int| (defs[i].kind, lower(defs[i].name)))
}

/// The names recorded for a file.
pub open spec fn recorded_names(files: Seq<FileView>, file: Seq<char>) -> Option<
    Seq<(RefKind, Seq<char>)>,
>
    decreases files.len(),
{
    if files.len() == 0 {
        None
    } else if files.last().file == file {
        Some(files.last().names)
    } else {
        recorded_names(files.drop_last(), file)
    }
}

/// The file records except those of `file`.
pub open spec fn other_files(files: Seq<FileView>, file: Seq<char>) -> Seq<FileView>
    decreases files.len(),
{
    if files.len() == 0 {
        Seq::empty()
    } else if files.last().file != file {
        other_files(files.drop_last(), file).push(files.last())
    } else {
        other_files(files.drop_last(), file)
    }
}

impl IndexView {
    /// Whether replacing a file's definitions changes the set of names.
    pub open spec fn names_change(self, file: Seq<char>, defs: Seq<DefinitionView>) -> bool {
        match recorded_names(self.files, file) {
            Some(names) => names.to_set() != defined_names(defs).to_set(),
            None => defs.len() > 0,
        }
    }

    /// The index with a file's definitions replaced.
    pub open spec fn set_file(self, file: Seq<char>, defs: Seq<DefinitionView>) -> IndexView {
        IndexView {
            entries: with_definitions(without_file(self.entries, file), file, defs),
            files: other_files(self.files, file).push(
                FileView { file, names: defined_names(defs) },
            ),
            generation: if self.names_change(file, defs) {
                self.generation + 1
            } else {
                self.generation
            },
        }
    }

    /// The index without a file's definitions.
    pub open spec fn remove_file(self, file: Seq<char>) -> IndexView {
        IndexView {
            entries: without_file(self.entries, file),
            files: other_files(self.files, file),
            generation: match recorded_names(self.files, file) {
                Some(names) => if names.len() > 0 {
                    self.generation + 1
                } else {
                    self.generation
                },
                None => self.generation,
            },
        }
    }

    /// Whether `name` is defined, in any case.
    pub open spec fn defines(self, kind: RefKind, name: Seq<char>) -> bool {
        entry_position(self.entries, kind, lower(name)) < self.entries.len()
    }

    /// The locations where `name` is defined.
    pub open spec fn locations_of(self, kind: RefKind, name: Seq<char>) -> Seq<LocationView> {
        let i = entry_position(self.entries, kind, lower(name));
        if i < self.entries.len() {
            self.entries[i].locations
        } else {
            Seq::empty()
        }
    }

    /// The names of one kind, as first written.
    pub open spec fn names_of(self, kind: RefKind) -> Seq<Seq<char>> {
        displays(self.entries, kind)
    }
}

pub open spec fn displays(entries: Seq<EntryView>, kind: RefKind) -> Seq<Seq<char>>
    decreases entries.len(),
{
    if entries.len() == 0 {
        Seq::empty()
    } else if entries.last().kind == kind {
        displays(entries.drop_last(), kind).push(entries.last().display)
    } else {
        displays(entries.drop_last(), kind)
    }
}

/// A definition found by a search.
#[derive(Debug)]
pub struct SymbolHit {
    pub kind: RefKind,
    pub name: String,
    pub location: Location,
}

#[verifier::ext_equal]
pub struct HitView {
    pub kind: RefKind,
    pub name: Seq<char>,
    pub location: LocationView,
}

pub open spec fn hit_views(s: Seq<SymbolHit>) -> Seq<HitView> {
    Seq::new(
        s.len(),
        |i: int| HitView { kind: s[i].kind, name: s[i].name@, location: s[i].location.view() },
    )
}

/// Whether `part` stands in `s` at `i`.
pub open spec fn part_at(s: Seq<char>, part: Seq<char>, i: int) -> bool {
    0 <= i && i + part.len() <= s.len() && s.subrange(i, i + part.len()) == part
}

/// Whether `part` stands somewhere in `s`.
pub open spec fn has_part(s: Seq<char>, part: Seq<char>) -> bool {
    exists|i: int| part_at(s, part, i)
}

/// The first `n` definitions of a name, one for each of its locations.
pub open spec fn entry_hits(entry: EntryView, n: nat) -> Seq<HitView> {
    Seq::new(
        n,
        |i: int|
            HitView { kind: entry.kind, name: entry.display, location: entry.locations[i] },
    )
}

/// The definitions whose name holds `part`.
pub open spec fn symbol_hits(entries: Seq<EntryView>, part: Seq<char>) -> Seq<HitView>
    decreases entries.len(),
{
    if entries.len() == 0 {
        Seq::empty()
    } else if has_part(entries.last().name, part) {
        symbol_hits(entries.drop_last(), part) + entry_hits(
            entries.last(),
            entries.last().locations.len(),
        )
    } else {
        symbol_hits(entries.drop_last(), part)
    }
}

/// At most the first `n` of a list.
pub open spec fn first_hits(hits: Seq<HitView>, n: nat) -> Seq<HitView> {
    if hits.len() <= n {
        hits
    } else {
        hits.take(n as int)
    }
}

fn part_stands(chars: &Vec<char>, part: &Vec<char>, at: usize) -> (yes: bool)
    requires
        at + part.len() <= chars.len(),
    ensures
        yes == part_at(chars@, part@, at as int),
{
    let mut i: usize = 0;
    while i < part.len()
        invariant
            i <= part.len(),
            at + part.len() <= chars.len(),
            forall|j: int| 0 <= j < i ==> chars[at + j] == #[trigger] part[j],
        decreases part.len() - i,
    {
        if chars[at + i] != part[i] {
            assert(chars@.subrange(at as int, at + part@.len())[i as int] != part@[i as int]);
            return false;
        }
        i += 1;
    }
    assert(chars@.subrange(at as int, at + part@.len()) =~= part@);
    true
}

/// Whether `part` stands somewhere in `s`.
pub fn contains_part(s: &str, part: &str) -> (yes: bool)
    ensures
        yes == has_part(s@, part@),
{
    let chars = chars_of(s);
    let wanted = chars_of(part);
    if wanted.len() > chars.len() {
        return false;
    }
    let last: usize = chars.len() - wanted.len();
    let mut i: usize = 0;
    while i <= last
        invariant
            i <= last + 1,
            chars@ == s@,
            wanted@ == part@,
            last + wanted.len() == chars.len(),
            forall|j: int| 0 <= j < i ==> !#[trigger] part_at(s@, part@, j),
        decreases last + 1 - i,
    {
        if part_stands(&chars, &wanted, i) {
            return true;
        }
        if i == last {
            return false;
        }
        i += 1;
    }
    false
}

/// Workspace-wide symbol table.
#[derive(Debug)]
pub struct WorkspaceIndex {
    entries: Vec<NameEntry>,
    files: Vec<FileNames>,
    /// Bumped whenever the set of names changes (not mere span shifts).
    generation: u64,
    /// What files contribute besides definitions.
    facts: Facts,
}

impl WorkspaceIndex {
    pub closed spec fn view(&self) -> IndexView {
        IndexView {
            entries: entry_views(self.entries@),
            files: file_views(self.files@),
            generation: self.generation as int,
        }
    }

    /// What files contribute besides definitions.
    pub closed spec fn facts(&self) -> FactsView {
        self.facts.view()
    }

    pub fn new() -> (index: Self)
        ensures
            index.view() == (IndexView {
                entries: Seq::empty(),
                files: Seq::empty(),
                generation: 0,
            }),
            index.facts() == (FactsView {
                tags: Seq::empty(),
                keys: Seq::empty(),
                models: Seq::empty(),
                references: Seq::empty(),
            }),
    {
        let index = WorkspaceIndex {
            entries: Vec::new(),
            files: Vec::new(),
            generation: 0,
            facts: Facts::new(),
        };
        assert(entry_views(index.entries@) =~= Seq::<EntryView>::empty());
        assert(file_views(index.files@) =~= Seq::<FileView>::empty());
        index
    }

    /// A counter that changes whenever reference resolution could change.
    /// Re-indexing a file with the same definition names does not bump it.
    pub fn generation(&self) -> (generation: u64)
        ensures
            generation == self.view().generation,
    {
        self.generation
    }

    /// Replace all definitions contributed by `file` with `defs`.
    pub fn set_file(&mut self, file: &str, defs: Vec<Definition>)
        requires
            old(self).view().generation < u64::MAX,
        ensures
            final(self).view() == old(self).view().set_file(file@, definition_views(defs@)),
            final(self).facts() == old(self).facts(),
    {
        let ghost was = self.view();
        let names = lower_names(&defs);
        let changed = match find_names(&self.files, file) {
            Some(known) => !same_name_set(known, &names),
            None => names.len() > 0,
        };
        if changed {
            self.generation = self.generation + 1;
        }
        self.remove_entries(file);
        self.add_definitions(file, &defs);
        let ghost before = file_views(self.files@);
        self.files.push(FileNames { file: file.to_owned(), names });
        proof {
            let record = FileView { file: file@, names: defined_names(definition_views(defs@)) };
            assert(file_views(self.files@) =~= before.push(record));
            assert(name_views(names@).len() == defs@.len());
            assert(changed == was.names_change(file@, definition_views(defs@)));
        }
    }

    /// Drop all definitions contributed by `file`.
    pub fn remove_file(&mut self, file: &str)
        requires
            old(self).view().generation < u64::MAX,
        ensures
            final(self).view() == old(self).view().remove_file(file@),
            final(self).facts() == old(self).facts(),
    {
        let changed = match find_names(&self.files, file) {
            Some(names) => names.len() > 0,
            None => false,
        };
        if changed {
            self.generation = self.generation + 1;
        }
        self.remove_entries(file);
    }

    /// Drops what `file` contributes to the entries and its record.
    fn remove_entries(&mut self, file: &str)
        ensures
            entry_views(final(self).entries@) == without_file(
                entry_views(old(self).entries@),
                file@,
            ),
            file_views(final(self).files@) == other_files(file_views(old(self).files@), file@),
            final(self).generation == old(self).generation,
            final(self).facts == old(self).facts,
    {
        let ghost all = entry_views(self.entries@);
        let ghost all_files = file_views(self.files@);
        let mut old_entries: Vec<NameEntry> = Vec::new();
        std::mem::swap(&mut old_entries, &mut self.entries);
        let mut kept: Vec<NameEntry> = Vec::new();
        let n: usize = old_entries.len();
        let mut i: usize = 0;
        proof {
            assert(entry_views(kept@) =~= without_file(all.take(0), file@));
        }
        // Entries are moved out from the back of the reversed list.
        let mut queue = reversed_entries(old_entries);
        while i < n
            invariant
                i <= n,
                n == all.len(),
                queue@.len() == n - i,
                forall|k: int|
                    0 <= k < queue@.len() ==> (#[trigger] queue@[k]).view() == all[n - 1 - k],
                entry_views(kept@) == without_file(all.take(i as int), file@),
            decreases n - i,
        {
            let entry = queue.pop().unwrap();
            proof {
                assert(all.take(i + 1).drop_last() =~= all.take(i as int));
                assert(all.take(i + 1).last() == entry.view());
            }
            let ghost before = entry_views(kept@);
            let locations = keep_elsewhere(entry.locations, file);
            if locations.len() > 0 {
                kept.push(
                    NameEntry {
                        kind: entry.kind,
                        name: entry.name,
                        display: entry.display,
                        locations,
                    },
                );
                proof {
                    assert(entry_views(kept@) =~= before.push(kept@.last().view()));
                }
            }
            i += 1;
        }
        assert(all.take(i as int) =~= all);
        self.entries = kept;
        let mut old_files: Vec<FileNames> = Vec::new();
        std::mem::swap(&mut old_files, &mut self.files);
        self.files = keep_other_files(old_files, file);
    }

    /// Adds the definitions of `file`.
    fn add_definitions(&mut self, file: &str, defs: &Vec<Definition>)
        ensures
            entry_views(final(self).entries@) == with_definitions(
                entry_views(old(self).entries@),
                file@,
                definition_views(defs@),
            ),
            final(self).files == old(self).files,
            final(self).generation == old(self).generation,
            final(self).facts == old(self).facts,
    {
        let ghost all = definition_views(defs@);
        let mut i: usize = 0;
        assert(all.take(0) =~= Seq::<DefinitionView>::empty());
        while i < defs.len()
            invariant
                self.facts == old(self).facts,
                i <= defs@.len(),
                all == definition_views(defs@),
                entry_views(self.entries@) == with_definitions(
                    entry_views(old(self).entries@),
                    file@,
                    all.take(i as int),
                ),
                self.files == old(self).files,
                self.generation == old(self).generation,
            decreases defs@.len() - i,
        {
            let def = &defs[i];
            proof {
                assert(all.take(i + 1).drop_last() =~= all.take(i as int));
                assert(all.take(i + 1).last() == def.view());
            }
            let ghost before = entry_views(self.entries@);
            let name = def.name.as_str().to_ascii_lowercase();
            let at = find_entry(&self.entries, def.kind, name.as_str());
            let location = Location { file: file.to_owned(), span: def.span };
            if at < self.entries.len() {
                let ghost had = self.entries@[at as int];
                let mut entry = self.entries.remove(at);
                entry.locations.push(location);
                proof {
                    assert(location_views(entry.locations@) =~= location_views(
                        had.locations@,
                    ).push(location.view()));
                }
                self.entries.insert(at, entry);
                proof {
                    assert(entry_views(self.entries@) =~= with_definition(
                        before,
                        file@,
                        def.view(),
                    ));
                }
            } else {
                let mut locations: Vec<Location> = Vec::new();
                locations.push(location);
                proof {
                    assert(location_views(locations@) =~= seq![location.view()]);
                }
                self.entries.push(
                    NameEntry { kind: def.kind, name, display: def.name.clone(), locations },
                );
                proof {
                    assert(entry_views(self.entries@) =~= with_definition(
                        before,
                        file@,
                        def.view(),
                    ));
                }
            }
            i += 1;
        }
        assert(all.take(i as int) =~= all);
    }

    /// Replace the module tags that `file` contributes.
    pub fn set_file_tags(&mut self, file: &str, tags: Vec<ModuleTag>)
        ensures
            final(self).view() == old(self).view(),
            final(self).facts() == (FactsView {
                tags: with_record(old(self).facts().tags, file@, item_views(tags@)),
                ..old(self).facts()
            }),
    {
        set_record(&mut self.facts.tags, file, tags);
    }

    /// Replace the string-table keys beside the INI file `file`.
    pub fn set_ini_string_keys(&mut self, file: &str, keys: Vec<String>)
        ensures
            final(self).view() == old(self).view(),
            final(self).facts() == (FactsView {
                keys: with_record(old(self).facts().keys, file@, item_views(keys@)),
                ..old(self).facts()
            }),
    {
        set_record(&mut self.facts.keys, file, keys);
    }

    /// Replace the W3D models that `file` contributes.
    pub fn set_file_models(&mut self, file: &str, models: Vec<ModelAsset>)
        ensures
            final(self).view() == old(self).view(),
            final(self).facts() == (FactsView {
                models: with_record(old(self).facts().models, file@, item_views(models@)),
                ..old(self).facts()
            }),
    {
        set_record(&mut self.facts.models, file, models);
    }

    /// Replace the reference sites that `file` contributes.
    pub fn set_file_refs(&mut self, file: &str, references: Vec<ReferenceAt>)
        ensures
            final(self).view() == old(self).view(),
            final(self).facts() == (FactsView {
                references: with_record(
                    old(self).facts().references,
                    file@,
                    item_views(references@),
                ),
                ..old(self).facts()
            }),
    {
        set_record(&mut self.facts.references, file, references);
    }

    /// The module tags of an object (case-insensitive).
    pub fn module_tags_for_object<'a>(&'a self, object: &str) -> (out: Vec<&'a str>)
        ensures
            str_views(out@) == tags_of(all_items(self.facts().tags), object@),
    {
        self.facts.module_tags_for_object(object)
    }

    /// The string-table keys beside an INI file.
    pub fn string_keys_for_ini<'a>(&'a self, file: &str) -> (out: Vec<&'a str>)
        ensures
            str_views(out@) == ({
                let i = record_position(self.facts().keys, file@, 0);
                if i < self.facts().keys.len() {
                    self.facts().keys[i].items
                } else {
                    Seq::empty()
                }
            }),
    {
        self.facts.string_keys_for_ini(file)
    }

    /// Whether any W3D model is known.
    pub fn has_model_assets(&self) -> (yes: bool)
        ensures
            yes == (all_items(self.facts().models).len() > 0),
    {
        self.facts.has_model_assets()
    }

    /// The names of the known W3D models, each once.
    pub fn model_names<'a>(&'a self) -> (out: Vec<&'a str>)
        ensures
            str_views(out@) == model_names_of(all_items(self.facts().models)),
    {
        self.facts.model_names()
    }

    /// The members of a W3D model (case-insensitive).
    pub fn model_members<'a>(&'a self, name: &str) -> (out: Vec<&'a str>)
        ensures
            str_views(out@) == members_of(all_items(self.facts().models), name@),
    {
        self.facts.model_members(name)
    }

    /// Whether a W3D model is known (case-insensitive).
    pub fn is_model_asset(&self, name: &str) -> (yes: bool)
        ensures
            yes == knows_model(all_items(self.facts().models), name@),
    {
        self.facts.is_model_asset(name)
    }

    /// The sites that refer to a name (case-insensitive).
    pub fn reference_sites(&self, kind: RefKind, name: &str) -> (out: Vec<Location>)
        ensures
            location_views(out@) == sites_of(self.facts().references, kind, name@),
    {
        self.facts.reference_sites(kind, name)
    }

    /// Is `name` defined for `kind` anywhere in the workspace?
    pub fn is_defined(&self, kind: RefKind, name: &str) -> (defined: bool)
        ensures
            defined == self.view().defines(kind, name@),
    {
        find_entry(&self.entries, kind, name.to_ascii_lowercase().as_str()) < self.entries.len()
    }

    /// All definition locations for `name` of `kind`.
    pub fn locations(&self, kind: RefKind, name: &str) -> (out: &[Location])
        ensures
            location_views(out@) == self.view().locations_of(kind, name@),
    {
        let at = find_entry(&self.entries, kind, name.to_ascii_lowercase().as_str());
        if at < self.entries.len() {
            proof {
                assert(self.view().entries[at as int] == self.entries@[at as int].view());
            }
            self.entries[at].locations.as_slice()
        } else {
            let none: &[Location] = &[];
            assert(location_views(none@) =~= Seq::<LocationView>::empty());
            none
        }
    }

    /// The definitions whose name holds `query`, in any case, up to `limit` of
    /// them.
    pub fn symbols(&self, query: &str, limit: usize) -> (out: Vec<SymbolHit>)
        ensures
            hit_views(out@) == first_hits(
                symbol_hits(self.view().entries, lower(query@)),
                limit as nat,
            ),
    {
        let ghost all = entry_views(self.entries@);
        let wanted = query.to_ascii_lowercase();
        let mut out: Vec<SymbolHit> = Vec::new();
        let mut i: usize = 0;
        proof {
            assert(all.take(0) =~= Seq::<EntryView>::empty());
            assert(hit_views(out@) =~= first_hits(Seq::empty(), limit as nat));
        }
        while i < self.entries.len()
            invariant
                i <= self.entries@.len(),
                all == entry_views(self.entries@),
                wanted@ == lower(query@),
                hit_views(out@) == first_hits(
                    symbol_hits(all.take(i as int), wanted@),
                    limit as nat,
                ),
            decreases self.entries@.len() - i,
        {
            let entry = &self.entries[i];
            let ghost before = symbol_hits(all.take(i as int), wanted@);
            assert(all.take(i + 1).drop_last() =~= all.take(i as int));
            assert(all[i as int] == entry.view());
            if contains_part(&entry.name, &wanted) {
                let ghost locations = location_views(entry.locations@);
                let mut j: usize = 0;
                assert(before + entry_hits(entry.view(), 0) =~= before);
                while j < entry.locations.len()
                    invariant
                        j <= entry.locations@.len(),
                        hit_views(out@) == first_hits(
                            before + entry_hits(entry.view(), j as nat),
                            limit as nat,
                        ),
                    decreases entry.locations@.len() - j,
                {
                    let location = &entry.locations[j];
                    let ghost hits = before + entry_hits(entry.view(), j as nat);
                    let ghost hit = HitView {
                        kind: entry.kind,
                        name: entry.display@,
                        location: location.view(),
                    };
                    proof {
                        assert(entry.view().locations[j as int] == location.view());
                        assert(before + entry_hits(entry.view(), (j + 1) as nat) =~= hits.push(
                            hit,
                        ));
                    }
                    if out.len() < limit {
                        let ghost known = hit_views(out@);
                        out.push(
                            SymbolHit {
                                kind: entry.kind,
                                name: entry.display.clone(),
                                location: Location {
                                    file: location.file.clone(),
                                    span: location.span,
                                },
                            },
                        );
                        assert(hit_views(out@) =~= known.push(hit));
                        assert(first_hits(hits, limit as nat) =~= hits);
                        assert(first_hits(hits.push(hit), limit as nat) =~= hits.push(hit));
                    } else {
                        assert(first_hits(hits.push(hit), limit as nat) =~= first_hits(
                            hits,
                            limit as nat,
                        ));
                    }
                    j += 1;
                }
            }
            i += 1;
        }
        assert(all.take(i as int) =~= all);
        out
    }

    /// All known names for a kind, in their originally-written casing.
    pub fn names(&self, kind: RefKind) -> (out: Vec<&str>)
        ensures
            str_views(out@) == self.view().names_of(kind),
    {
        let ghost all = entry_views(self.entries@);
        let mut out: Vec<&str> = Vec::new();
        let mut i: usize = 0;
        proof {
            assert(all.take(0) =~= Seq::<EntryView>::empty());
            assert(str_views(out@) =~= Seq::<Seq<char>>::empty());
        }
        while i < self.entries.len()
            invariant
                i <= self.entries@.len(),
                all == entry_views(self.entries@),
                str_views(out@) == displays(all.take(i as int), kind),
            decreases self.entries@.len() - i,
        {
            let entry = &self.entries[i];
            proof {
                assert(all.take(i + 1).drop_last() =~= all.take(i as int));
                assert(all.take(i + 1).last() == entry.view());
            }
            let ghost before = str_views(out@);
            if entry.kind == kind {
                out.push(entry.display.as_str());
                assert(str_views(out@) =~= before.push(entry.display@));
            }
            i += 1;
        }
        assert(all.take(i as int) =~= all);
        out
    }
}

fn reversed_entries(entries: Vec<NameEntry>) -> (out: Vec<NameEntry>)
    ensures
        out@ == entries@.reverse(),
{
    let mut rest = entries;
    let mut out: Vec<NameEntry> = Vec::new();
    let ghost all = rest@;
    while rest.len() > 0
        invariant
            rest@.len() + out@.len() == all.len(),
            rest@ == all.take(rest@.len() as int),
            out@ == all.skip(rest@.len() as int).reverse(),
        decreases rest@.len(),
    {
        let ghost n = rest@.len();
        let entry = rest.pop().unwrap();
        out.push(entry);
        proof {
            assert(rest@ =~= all.take(n - 1));
            assert(out@ =~= all.skip(n - 1).reverse());
        }
    }
    assert(all.skip(0) =~= all);
    out
}

fn reversed_locations(locations: Vec<Location>) -> (out: Vec<Location>)
    ensures
        out@ == locations@.reverse(),
{
    let mut rest = locations;
    let mut out: Vec<Location> = Vec::new();
    let ghost all = rest@;
    while rest.len() > 0
        invariant
            rest@.len() + out@.len() == all.len(),
            rest@ == all.take(rest@.len() as int),
            out@ == all.skip(rest@.len() as int).reverse(),
        decreases rest@.len(),
    {
        let ghost n = rest@.len();
        let entry = rest.pop().unwrap();
        out.push(entry);
        proof {
            assert(rest@ =~= all.take(n - 1));
            assert(out@ =~= all.skip(n - 1).reverse());
        }
    }
    assert(all.skip(0) =~= all);
    out
}

/// The locations outside `file`.
fn keep_elsewhere(locations: Vec<Location>, file: &str) -> (out: Vec<Location>)
    ensures
        location_views(out@) == locations_elsewhere(location_views(locations@), file@),
{
    let ghost all = location_views(locations@);
    let n: usize = locations.len();
    let mut queue = reversed_locations(locations);
    let mut out: Vec<Location> = Vec::new();
    let mut i: usize = 0;
    assert(location_views(out@) =~= locations_elsewhere(all.take(0), file@));
    while i < n
        invariant
            i <= n,
            n == all.len(),
            queue@.len() == n - i,
            forall|k: int|
                0 <= k < queue@.len() ==> (#[trigger] queue@[k]).view() == all[n - 1 - k],
            location_views(out@) == locations_elsewhere(all.take(i as int), file@),
        decreases n - i,
    {
        let location = queue.pop().unwrap();
        proof {
            assert(all.take(i + 1).drop_last() =~= all.take(i as int));
            assert(all.take(i + 1).last() == location.view());
        }
        let ghost before = location_views(out@);
        if !same(location.file.as_str(), file) {
            out.push(location);
            assert(location_views(out@) =~= before.push(location.view()));
        }
        i += 1;
    }
    assert(all.take(i as int) =~= all);
    out
}

/// The file records except those of `file`.
fn keep_other_files(files: Vec<FileNames>, file: &str) -> (out: Vec<FileNames>)
    ensures
        file_views(out@) == other_files(file_views(files@), file@),
{
    let ghost all = file_views(files@);
    let mut rest = files;
    let mut queue: Vec<FileNames> = Vec::new();
    let ghost records = rest@;
    while rest.len() > 0
        invariant
            rest@.len() + queue@.len() == records.len(),
            rest@ == records.take(rest@.len() as int),
            queue@ == records.skip(rest@.len() as int).reverse(),
        decreases rest@.len(),
    {
        let ghost n = rest@.len();
        let record = rest.pop().unwrap();
        queue.push(record);
        proof {
            assert(rest@ =~= records.take(n - 1));
            assert(queue@ =~= records.skip(n - 1).reverse());
        }
    }
    let n: usize = queue.len();
    let mut out: Vec<FileNames> = Vec::new();
    let mut i: usize = 0;
    proof {
        assert(records.skip(0) =~= records);
        assert(file_views(out@) =~= other_files(all.take(0), file@));
    }
    while i < n
        invariant
            i <= n,
            n == all.len(),
            queue@.len() == n - i,
            forall|k: int|
                0 <= k < queue@.len() ==> (#[trigger] queue@[k]).view() == all[n - 1 - k],
            file_views(out@) == other_files(all.take(i as int), file@),
        decreases n - i,
    {
        let record = queue.pop().unwrap();
        proof {
            assert(all.take(i + 1).drop_last() =~= all.take(i as int));
            assert(all.take(i + 1).last() == record.view());
        }
        let ghost before = file_views(out@);
        if !same(record.file.as_str(), file) {
            out.push(record);
            assert(file_views(out@) =~= before.push(record.view()));
        }
        i += 1;
    }
    assert(all.take(i as int) =~= all);
    out
}

fn find_entry(entries: &Vec<NameEntry>, kind: RefKind, name: &str) -> (at: usize)
    ensures
        at == entry_position(entry_views(entries@), kind, name@),
        at <= entries@.len(),
{
    let ghost all = entry_views(entries@);
    let mut i: usize = 0;
    assert(all.take(0) =~= Seq::<EntryView>::empty());
    while i < entries.len()
        invariant
            i <= entries@.len(),
            all == entry_views(entries@),
            entry_position(all.take(i as int), kind, name@) == i,
        decreases entries@.len() - i,
    {
        proof {
            assert(all.take(i + 1).drop_last() =~= all.take(i as int));
            assert(all.take(i + 1).last() == entries@[i as int].view());
        }
        if entries[i].kind == kind && same(entries[i].name.as_str(), name) {
            proof {
                lemma_position_stays(all, i + 1, kind, name@);
            }
            return i;
        }
        i += 1;
    }
    assert(all.take(i as int) =~= all);
    i
}

proof fn lemma_position_stays(all: Seq<EntryView>, i: int, kind: RefKind, name: Seq<char>)
    requires
        0 < i <= all.len(),
        entry_position(all.take(i), kind, name) < i,
    ensures
        entry_position(all, kind, name) == entry_position(all.take(i), kind, name),
    decreases all.len() - i,
{
    if i < all.len() {
        assert(all.take(i + 1).drop_last() =~= all.take(i));
        lemma_position_stays(all, i + 1, kind, name);
    } else {
        assert(all.take(i) =~= all);
    }
}

/// The names of a list of definitions, in lower case.
fn lower_names(defs: &Vec<Definition>) -> (out: Vec<DefinedName>)
    ensures
        name_views(out@) == defined_names(definition_views(defs@)),
{
    let ghost all = defined_names(definition_views(defs@));
    let mut out: Vec<DefinedName> = Vec::new();
    let mut i: usize = 0;
    assert(name_views(out@) =~= all.take(0));
    while i < defs.len()
        invariant
            i <= defs@.len(),
            all == defined_names(definition_views(defs@)),
            name_views(out@) == all.take(i as int),
        decreases defs@.len() - i,
    {
        let ghost before = name_views(out@);
        out.push(
            DefinedName { kind: defs[i].kind, name: defs[i].name.as_str().to_ascii_lowercase() },
        );
        proof {
            assert(definition_views(defs@)[i as int] == defs@[i as int].view());
            assert(all.take(i + 1) =~= all.take(i as int).push(all[i as int]));
            assert(name_views(out@) =~= before.push(all[i as int]));
        }
        i += 1;
    }
    assert(all.take(i as int) =~= all);
    out
}

fn same_names(a: &Vec<DefinedName>, b: &Vec<DefinedName>) -> (equal: bool)
    ensures
        equal == (name_views(a@) == name_views(b@)),
{
    if a.len() != b.len() {
        assert(name_views(a@).len() != name_views(b@).len());
        return false;
    }
    let mut i: usize = 0;
    while i < a.len()
        invariant
            a@.len() == b@.len(),
            i <= a@.len(),
            forall|j: int| 0 <= j < i ==> #[trigger] name_views(a@)[j] == name_views(b@)[j],
        decreases a@.len() - i,
    {
        if a[i].kind != b[i].kind || !same(a[i].name.as_str(), b[i].name.as_str()) {
            assert(name_views(a@)[i as int] != name_views(b@)[i as int]);
            return false;
        }
        i += 1;
    }
    assert(name_views(a@) =~= name_views(b@));
    true
}

/// Whether a name is one of `names`.
fn lists(names: &Vec<DefinedName>, wanted: &DefinedName) -> (listed: bool)
    ensures
        listed == name_views(names@).contains((wanted.kind, wanted.name@)),
{
    let ghost all = name_views(names@);
    let mut i: usize = 0;
    while i < names.len()
        invariant
            i <= names@.len(),
            all == name_views(names@),
            forall|j: int| 0 <= j < i ==> #[trigger] all[j] != (wanted.kind, wanted.name@),
        decreases names@.len() - i,
    {
        if names[i].kind == wanted.kind && same(names[i].name.as_str(), wanted.name.as_str()) {
            assert(all[i as int] == (wanted.kind, wanted.name@));
            return true;
        }
        i += 1;
    }
    false
}

/// Whether every name of `a` is one of `b`.
fn lists_all(a: &Vec<DefinedName>, b: &Vec<DefinedName>) -> (listed: bool)
    ensures
        listed == name_views(a@).to_set().subset_of(name_views(b@).to_set()),
{
    let ghost (all, known) = (name_views(a@), name_views(b@));
    let mut i: usize = 0;
    while i < a.len()
        invariant
            i <= a@.len(),
            all == name_views(a@),
            known == name_views(b@),
            forall|j: int| 0 <= j < i ==> known.contains(#[trigger] all[j]),
        decreases a@.len() - i,
    {
        if !lists(b, &a[i]) {
            assert(all.to_set().contains(all[i as int]));
            return false;
        }
        i += 1;
    }
    assert forall|name: (RefKind, Seq<char>)| #[trigger]
        all.to_set().contains(name) implies known.to_set().contains(name) by {
        let j = choose|j: int| 0 <= j < all.len() && all[j] == name;
        assert(known.contains(all[j]));
    }
    true
}

/// Whether two lists hold the same names, in whatever order.
fn same_name_set(a: &Vec<DefinedName>, b: &Vec<DefinedName>) -> (equal: bool)
    ensures
        equal == (name_views(a@).to_set() == name_views(b@).to_set()),
{
    // Mostly nothing has changed at all.
    if same_names(a, b) {
        return true;
    }
    let equal = lists_all(a, b) && lists_all(b, a);
    assert(equal ==> name_views(a@).to_set() =~= name_views(b@).to_set());
    equal
}

#[verifier::loop_isolation(false)]
fn find_names<'a>(files: &'a Vec<FileNames>, file: &str) -> (out: Option<&'a Vec<DefinedName>>)
    ensures
        match out {
            Some(names) => recorded_names(file_views(files@), file@) == Some(name_views(names@)),
            None => recorded_names(file_views(files@), file@) is None,
        },
{
    let ghost all = file_views(files@);
    let mut i: usize = files.len();
    assert(all.take(i as int) =~= all);
    while i > 0
        invariant
            i <= files@.len(),
            recorded_names(all, file@) == recorded_names(all.take(i as int), file@),
        decreases i,
    {
        proof {
            assert(all.take(i as int).drop_last() =~= all.take(i - 1));
            assert(all.take(i as int).last() == files@[i - 1].view());
        }
        i -= 1;
        if same(files[i].file.as_str(), file) {
            return Some(&files[i].names);
        }
    }
    None
}

// ---------------------------------------------------------------------------
// Definitions of a document
// ---------------------------------------------------------------------------
/// A token's range, moved by the offset of its top-level element.
pub open spec fn span_at(offset: u32, start: u32, end: u32) -> Span {
    Span { start: offset.wrapping_add(start), end: offset.wrapping_add(end) }
}

/// The definition that a top-level element contributes: a block whose keyword
/// defines a kind and that has a name.
pub open spec fn definition_of(schema: Schema, child: ChildView) -> Option<DefinitionView> {
    match child.element {
        ElementView::Node(node) => if node.kind != SyntaxKind::BLOCK {
            None
        } else {
            match (node.head_word(), node.second_word()) {
                (Some(keyword), Some(name)) => match block_named(schema.blocks@, keyword.text) {
                    Some(block) => match block.defines {
                        Some(kind) => Some(
                            DefinitionView {
                                name: name.text,
                                kind,
                                span: span_at(
                                    child.offset as u32,
                                    name.start as u32,
                                    name.end as u32,
                                ),
                            },
                        ),
                        None => None,
                    },
                    None => None,
                },
                _ => None,
            }
        },
        ElementView::Token(_) => None,
    }
}

/// The definitions that a document contributes.
pub open spec fn definitions_of(schema: Schema, children: Seq<ChildView>) -> Seq<DefinitionView>
    decreases children.len(),
{
    if children.len() == 0 {
        Seq::empty()
    } else {
        let rest = definitions_of(schema, children.drop_last());
        match definition_of(schema, children.last()) {
            Some(def) => rest.push(def),
            None => rest,
        }
    }
}

/// A range inside a top-level element, as a range of the document.
pub fn rebase(offset: u32, start: u32, end: u32) -> (span: Span)
    ensures
        span == span_at(offset, start, end),
{
    Span { start: offset.wrapping_add(start), end: offset.wrapping_add(end) }
}

/// Collect the named definitions a parsed document contributes (top-level
/// blocks whose keyword defines a reference kind).
pub fn definitions_in(analyzer: &Analyzer, parse: &Parse, _file: &str) -> (out: Vec<Definition>)
    ensures
        definition_views(out@) == definitions_of(analyzer.schema, child_views(parse.children@)),
{
    let ghost all = child_views(parse.children@);
    let mut out: Vec<Definition> = Vec::new();
    let mut i: usize = 0;
    assert(definition_views(out@) =~= definitions_of(analyzer.schema, all.take(0)));
    while i < parse.children.len()
        invariant
            i <= parse.children@.len(),
            all == child_views(parse.children@),
            definition_views(out@) == definitions_of(analyzer.schema, all.take(i as int)),
        decreases parse.children@.len() - i,
    {
        let child = &parse.children[i];
        proof {
            assert(all.take(i + 1).drop_last() =~= all.take(i as int));
            assert(all.take(i + 1).last() == child.view());
        }
        let ghost before = definition_views(out@);
        if let Some(def) = block_definition(analyzer, child.offset, &child.element) {
            out.push(def);
            assert(definition_views(out@) =~= before.push(def.view()));
        }
        i += 1;
    }
    assert(all.take(i as int) =~= all);
    out
}

fn block_definition(analyzer: &Analyzer, offset: u32, element: &SyntaxElement) -> (out: Option<
    Definition,
>)
    ensures
        match out {
            Some(def) => definition_of(
                analyzer.schema,
                ChildView { offset: offset as int, element: element.view() },
            ) == Some(def.view()),
            None => definition_of(
                analyzer.schema,
                ChildView { offset: offset as int, element: element.view() },
            ) is None,
        },
{
    let node = match element {
        SyntaxElement::Node(node) => node,
        SyntaxElement::Token(_) => {
            return None;
        },
    };
    let block = match Block::cast(node) {
        Some(block) => block,
        None => {
            return None;
        },
    };
    match (block.keyword(), block.name()) {
        (Some(keyword), Some(name)) => match analyzer.block(keyword.text.as_str()) {
            Some(schema_block) => match schema_block.defines {
                Some(kind) => Some(
                    Definition {
                        name: name.text.clone(),
                        kind,
                        span: rebase(offset, name.start, name.end),
                    },
                ),
                None => None,
            },
            None => None,
        },
        _ => None,
    }
}

} // verus!
