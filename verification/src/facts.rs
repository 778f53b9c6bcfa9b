//! What files contribute besides definitions: module tags, string-table keys,
//! W3D models and reference sites. Each kind of fact is replaced per file.

use vstd::prelude::*;
use vstd::string::*;

use crate::analyzer::str_views;
use crate::index::{Location, LocationView};
use crate::nav::{ReferenceAt, ReferenceView};
use crate::schema::RefKind;
use crate::text::{same, same_ignoring_case};

verus! {

/// The facts of one kind that a file contributes.
#[derive(Debug)]
pub struct FileRecord<T> {
    pub file: String,
    pub items: Vec<T>,
}

#[verifier::ext_equal]
pub struct RecordView<V> {
    pub file: Seq<char>,
    pub items: Seq<V>,
}

pub open spec fn item_views<T: View>(s: Seq<T>) -> Seq<T::V> {
    Seq::new(s.len(), |i: int| s[i]@)
}

impl<T: View> View for FileRecord<T> {
    type V = RecordView<T::V>;

    open spec fn view(&self) -> RecordView<T::V> {
        RecordView { file: self.file@, items: item_views(self.items@) }
    }
}

/// The position of a file's record from `i` on, or the number of records.
pub open spec fn record_position<V>(records: Seq<RecordView<V>>, file: Seq<char>, i: int) -> int
    decreases records.len() - i,
{
    if i < 0 || i >= records.len() || records[i].file == file {
        i
    } else {
        record_position(records, file, i + 1)
    }
}

/// The records with those of a file replaced.
pub open spec fn with_record<V>(
    records: Seq<RecordView<V>>,
    file: Seq<char>,
    items: Seq<V>,
) -> Seq<RecordView<V>> {
    let i = record_position(records, file, 0);
    if i < records.len() {
        records.update(i, RecordView { file, items })
    } else {
        records.push(RecordView { file, items })
    }
}

/// Every fact of every file, in order.
pub open spec fn all_items<V>(records: Seq<RecordView<V>>) -> Seq<V>
    decreases records.len(),
{
    if records.len() == 0 {
        Seq::empty()
    } else {
        all_items(records.drop_last()) + records.last().items
    }
}

fn find_record<T: View>(records: &Vec<FileRecord<T>>, file: &str) -> (at: usize)
    ensures
        at == record_position(item_views(records@), file@, 0),
        at <= records@.len(),
{
    let ghost all = item_views(records@);
    let mut i: usize = 0;
    while i < records.len() && !same(records[i].file.as_str(), file)
        invariant
            i <= records@.len(),
            all == item_views(records@),
            record_position(all, file@, i as int) == record_position(all, file@, 0),
        decreases records@.len() - i,
    {
        i += 1;
    }
    i
}

/// Replaces a file's record.
pub(crate) fn set_record<T: View>(records: &mut Vec<FileRecord<T>>, file: &str, items: Vec<T>)
    ensures
        item_views(final(records)@) == with_record(
            item_views(old(records)@),
            file@,
            item_views(items@),
        ),
{
    let ghost before = item_views(records@);
    let at = find_record(records, file);
    let record = FileRecord { file: file.to_owned(), items };
    let ghost view = record@;
    if at < records.len() {
        records.set(at, record);
        assert(item_views(records@) =~= before.update(at as int, view));
    } else {
        records.push(record);
        assert(item_views(records@) =~= before.push(view));
    }
}

// ---------------------------------------------------------------------------
// Facts
// ---------------------------------------------------------------------------
/// A module tag of an object.
#[derive(Debug)]
pub struct ModuleTag {
    pub object: String,
    pub tag: String,
}

#[verifier::ext_equal]
pub struct TagView {
    pub object: Seq<char>,
    pub tag: Seq<char>,
}

impl View for ModuleTag {
    type V = TagView;

    open spec fn view(&self) -> TagView {
        TagView { object: self.object@, tag: self.tag@ }
    }
}

/// A W3D model and its members (bones, meshes, sub-objects).
#[derive(Debug)]
pub struct ModelAsset {
    pub name: String,
    pub members: Vec<String>,
}

#[verifier::ext_equal]
pub struct ModelView {
    pub name: Seq<char>,
    pub members: Seq<Seq<char>>,
}

impl View for ModelAsset {
    type V = ModelView;

    open spec fn view(&self) -> ModelView {
        ModelView { name: self.name@, members: item_views(self.members@) }
    }
}

/// The facts of all files.
#[verifier::ext_equal]
pub struct FactsView {
    pub tags: Seq<RecordView<TagView>>,
    pub keys: Seq<RecordView<Seq<char>>>,
    pub models: Seq<RecordView<ModelView>>,
    pub references: Seq<RecordView<ReferenceView>>,
}

/// The tags of an object, in any case.
pub open spec fn tags_of(tags: Seq<TagView>, object: Seq<char>) -> Seq<Seq<char>>
    decreases tags.len(),
{
    if tags.len() == 0 {
        Seq::empty()
    } else if same_ignoring_case(tags.last().object, object) {
        tags_of(tags.drop_last(), object).push(tags.last().tag)
    } else {
        tags_of(tags.drop_last(), object)
    }
}

/// Whether a list holds a name, in any case.
pub open spec fn lists_name(names: Seq<Seq<char>>, name: Seq<char>) -> bool {
    exists|i: int| 0 <= i < names.len() && same_ignoring_case(#[trigger] names[i], name)
}

/// The names of models, each once, as first written.
pub open spec fn model_names_of(models: Seq<ModelView>) -> Seq<Seq<char>>
    decreases models.len(),
{
    if models.len() == 0 {
        Seq::empty()
    } else {
        let rest = model_names_of(models.drop_last());
        if lists_name(rest, models.last().name) {
            rest
        } else {
            rest.push(models.last().name)
        }
    }
}

/// The members of a model, in any case.
pub open spec fn members_of(models: Seq<ModelView>, name: Seq<char>) -> Seq<Seq<char>>
    decreases models.len(),
{
    if models.len() == 0 {
        Seq::empty()
    } else if same_ignoring_case(models.last().name, name) {
        members_of(models.drop_last(), name) + models.last().members
    } else {
        members_of(models.drop_last(), name)
    }
}

/// Whether a model is known, in any case.
pub open spec fn knows_model(models: Seq<ModelView>, name: Seq<char>) -> bool {
    exists|i: int|
        0 <= i < models.len() && same_ignoring_case((#[trigger] models[i]).name, name)
}

/// The sites of one file that refer to a name, in any case, after `acc`.
pub open spec fn sites_in(
    file: Seq<char>,
    references: Seq<ReferenceView>,
    kind: RefKind,
    name: Seq<char>,
    acc: Seq<LocationView>,
) -> Seq<LocationView>
    decreases references.len(),
{
    if references.len() == 0 {
        acc
    } else {
        let rest = sites_in(file, references.drop_last(), kind, name, acc);
        let last = references.last();
        if last.kind == kind && same_ignoring_case(last.name, name) {
            rest.push(LocationView { file, span: last.span })
        } else {
            rest
        }
    }
}

/// The sites of all files that refer to a name, in any case.
pub open spec fn sites_of(
    records: Seq<RecordView<ReferenceView>>,
    kind: RefKind,
    name: Seq<char>,
) -> Seq<LocationView>
    decreases records.len(),
{
    if records.len() == 0 {
        Seq::empty()
    } else {
        sites_in(
            records.last().file,
            records.last().items,
            kind,
            name,
            sites_of(records.drop_last(), kind, name),
        )
    }
}

/// The facts of all files.
#[derive(Debug)]
pub struct Facts {
    pub tags: Vec<FileRecord<ModuleTag>>,
    pub keys: Vec<FileRecord<String>>,
    pub models: Vec<FileRecord<ModelAsset>>,
    pub references: Vec<FileRecord<ReferenceAt>>,
}

impl Facts {
    pub open spec fn view(&self) -> FactsView {
        FactsView {
            tags: item_views(self.tags@),
            keys: item_views(self.keys@),
            models: item_views(self.models@),
            references: item_views(self.references@),
        }
    }

    pub fn new() -> (facts: Self)
        ensures
            facts.view() == (FactsView {
                tags: Seq::empty(),
                keys: Seq::empty(),
                models: Seq::empty(),
                references: Seq::empty(),
            }),
    {
        let facts = Facts {
            tags: Vec::new(),
            keys: Vec::new(),
            models: Vec::new(),
            references: Vec::new(),
        };
        proof {
            assert(facts.view().tags =~= Seq::empty());
            assert(facts.view().keys =~= Seq::empty());
            assert(facts.view().models =~= Seq::empty());
            assert(facts.view().references =~= Seq::empty());
        }
        facts
    }

    /// The module tags of an object.
    pub fn module_tags_for_object<'a>(&'a self, object: &str) -> (out: Vec<&'a str>)
        ensures
            str_views(out@) == tags_of(all_items(self.view().tags), object@),
    {
        let mut out: Vec<&'a str> = Vec::new();
        let ghost records = item_views(self.tags@);
        let ghost mut seen: Seq<TagView> = Seq::empty();
        let mut i: usize = 0;
        proof {
            assert(str_views(out@) =~= tags_of(seen, object@));
            assert(records.take(0) =~= Seq::empty());
        }
        while i < self.tags.len()
            invariant
                i <= self.tags@.len(),
                records == item_views(self.tags@),
                seen == all_items(records.take(i as int)),
                str_views(out@) == tags_of(seen, object@),
            decreases self.tags@.len() - i,
        {
            let items = &self.tags[i].items;
            let ghost added = item_views(items@);
            let mut j: usize = 0;
            assert(seen + added.take(0) =~= seen);
            while j < items.len()
                invariant
                    j <= items@.len(),
                    added == item_views(items@),
                    str_views(out@) == tags_of(seen + added.take(j as int), object@),
                decreases items@.len() - j,
            {
                let ghost before = str_views(out@);
                assert((seen + added.take(j + 1)).drop_last() =~= seen + added.take(j as int));
                if items[j].object.as_str().eq_ignore_ascii_case(object) {
                    out.push(items[j].tag.as_str());
                    assert(str_views(out@) =~= before.push(items@[j as int].tag@));
                }
                j += 1;
            }
            proof {
                assert(added.take(j as int) =~= added);
                assert(records.take(i + 1).drop_last() =~= records.take(i as int));
                assert(records.take(i + 1).last() == self.tags@[i as int]@);
                seen = seen + added;
            }
            i += 1;
        }
        assert(records.take(i as int) =~= records);
        out
    }

    /// The string-table keys beside an INI file.
    pub fn string_keys_for_ini<'a>(&'a self, file: &str) -> (out: Vec<&'a str>)
        ensures
            str_views(out@) == ({
                let i = record_position(self.view().keys, file@, 0);
                if i < self.view().keys.len() {
                    self.view().keys[i].items
                } else {
                    Seq::empty()
                }
            }),
    {
        let mut out: Vec<&'a str> = Vec::new();
        let at = find_record(&self.keys, file);
        if at < self.keys.len() {
            let items = &self.keys[at].items;
            let ghost all = item_views(items@);
            let mut i: usize = 0;
            assert(str_views(out@) =~= all.take(0));
            while i < items.len()
                invariant
                    i <= items@.len(),
                    all == item_views(items@),
                    str_views(out@) == all.take(i as int),
                decreases items@.len() - i,
            {
                let ghost before = str_views(out@);
                out.push(items[i].as_str());
                assert(str_views(out@) =~= before.push(items@[i as int]@));
                assert(all.take(i + 1) =~= all.take(i as int).push(all[i as int]));
                i += 1;
            }
            assert(all.take(i as int) =~= all);
        } else {
            assert(str_views(out@) =~= Seq::empty());
        }
        out
    }

    /// The models of all files.
    fn models<'a>(&'a self) -> (out: Vec<&'a ModelAsset>)
        ensures
            model_views(out@) == all_items(self.view().models),
    {
        let mut out: Vec<&'a ModelAsset> = Vec::new();
        let ghost records = item_views(self.models@);
        let mut i: usize = 0;
        proof {
            assert(records.take(0) =~= Seq::empty());
            assert(model_views(out@) =~= all_items(records.take(0)));
        }
        while i < self.models.len()
            invariant
                i <= self.models@.len(),
                records == item_views(self.models@),
                model_views(out@) == all_items(records.take(i as int)),
            decreases self.models@.len() - i,
        {
            let items = &self.models[i].items;
            let ghost added = item_views(items@);
            let ghost seen = model_views(out@);
            let mut j: usize = 0;
            assert(seen + added.take(0) =~= seen);
            while j < items.len()
                invariant
                    j <= items@.len(),
                    added == item_views(items@),
                    model_views(out@) == seen + added.take(j as int),
                decreases items@.len() - j,
            {
                let ghost before = model_views(out@);
                out.push(&items[j]);
                assert(model_views(out@) =~= before.push(items@[j as int]@));
                assert(seen + added.take(j + 1) =~= (seen + added.take(j as int)).push(
                    added[j as int],
                ));
                j += 1;
            }
            proof {
                assert(added.take(j as int) =~= added);
                assert(records.take(i + 1).drop_last() =~= records.take(i as int));
                assert(records.take(i + 1).last() == self.models@[i as int]@);
            }
            i += 1;
        }
        assert(records.take(i as int) =~= records);
        out
    }

    /// Whether any W3D model is known.
    pub fn has_model_assets(&self) -> (yes: bool)
        ensures
            yes == (all_items(self.view().models).len() > 0),
    {
        let models = self.models();
        assert(model_views(models@).len() == models@.len());
        models.len() > 0
    }

    /// The names of the known W3D models, each once.
    pub fn model_names<'a>(&'a self) -> (out: Vec<&'a str>)
        ensures
            str_views(out@) == model_names_of(all_items(self.view().models)),
    {
        let models = self.models();
        let ghost all = all_items(self.view().models);
        let mut out: Vec<&'a str> = Vec::new();
        let mut i: usize = 0;
        assert(str_views(out@) =~= model_names_of(all.take(0)));
        while i < models.len()
            invariant
                i <= models@.len(),
                all == model_views(models@),
                str_views(out@) == model_names_of(all.take(i as int)),
            decreases models@.len() - i,
        {
            proof {
                assert(all.take(i + 1).drop_last() =~= all.take(i as int));
                assert(all.take(i + 1).last() == models@[i as int]@);
            }
            let ghost before = str_views(out@);
            let name = models[i].name.as_str();
            if !name_listed(&out, name) {
                out.push(name);
                assert(str_views(out@) =~= before.push(name@));
            }
            i += 1;
        }
        assert(all.take(i as int) =~= all);
        out
    }

    /// The members of a W3D model.
    pub fn model_members<'a>(&'a self, name: &str) -> (out: Vec<&'a str>)
        ensures
            str_views(out@) == members_of(all_items(self.view().models), name@),
    {
        let models = self.models();
        let ghost all = all_items(self.view().models);
        let mut out: Vec<&'a str> = Vec::new();
        let mut i: usize = 0;
        assert(str_views(out@) =~= members_of(all.take(0), name@));
        while i < models.len()
            invariant
                i <= models@.len(),
                all == model_views(models@),
                str_views(out@) == members_of(all.take(i as int), name@),
            decreases models@.len() - i,
        {
            proof {
                assert(all.take(i + 1).drop_last() =~= all.take(i as int));
                assert(all.take(i + 1).last() == models@[i as int]@);
            }
            let model: &'a ModelAsset = models[i];
            if model.name.as_str().eq_ignore_ascii_case(name) {
                let ghost seen = str_views(out@);
                let ghost added = item_views(model.members@);
                let mut j: usize = 0;
                assert(seen + added.take(0) =~= seen);
                while j < model.members.len()
                    invariant
                        j <= model.members@.len(),
                        added == item_views(model.members@),
                        str_views(out@) == seen + added.take(j as int),
                    decreases model.members@.len() - j,
                {
                    let ghost before = str_views(out@);
                    out.push(model.members[j].as_str());
                    assert(str_views(out@) =~= before.push(model.members@[j as int]@));
                    assert(seen + added.take(j + 1) =~= (seen + added.take(j as int)).push(
                        added[j as int],
                    ));
                    j += 1;
                }
                assert(added.take(j as int) =~= added);
            }
            i += 1;
        }
        assert(all.take(i as int) =~= all);
        out
    }

    /// Whether a W3D model is known, in any case.
    pub fn is_model_asset(&self, name: &str) -> (yes: bool)
        ensures
            yes == knows_model(all_items(self.view().models), name@),
    {
        let models = self.models();
        let ghost all = all_items(self.view().models);
        let mut i: usize = 0;
        while i < models.len()
            invariant
                i <= models@.len(),
                all == model_views(models@),
                all == all_items(self.view().models),
                forall|k: int|
                    0 <= k < i ==> !same_ignoring_case((#[trigger] all[k]).name, name@),
            decreases models@.len() - i,
        {
            assert(all[i as int] == models@[i as int]@);
            if models[i].name.as_str().eq_ignore_ascii_case(name) {
                return true;
            }
            i += 1;
        }
        false
    }

    /// The sites that refer to a name.
    pub fn reference_sites(&self, kind: RefKind, name: &str) -> (out: Vec<Location>)
        ensures
            crate::index::location_views(out@) == sites_of(self.view().references, kind, name@),
    {
        let mut out: Vec<Location> = Vec::new();
        let ghost records = item_views(self.references@);
        let mut i: usize = 0;
        proof {
            assert(records.take(0) =~= Seq::empty());
            assert(crate::index::location_views(out@) =~= sites_of(records.take(0), kind, name@));
        }
        while i < self.references.len()
            invariant
                i <= self.references@.len(),
                records == item_views(self.references@),
                crate::index::location_views(out@) == sites_of(
                    records.take(i as int),
                    kind,
                    name@,
                ),
            decreases self.references@.len() - i,
        {
            let record = &self.references[i];
            let ghost all = item_views(record.items@);
            let ghost start = crate::index::location_views(out@);
            let mut j: usize = 0;
            assert(all.take(0) =~= Seq::empty());
            while j < record.items.len()
                invariant
                    j <= record.items@.len(),
                    all == item_views(record.items@),
                    crate::index::location_views(out@) == sites_in(
                        record.file@,
                        all.take(j as int),
                        kind,
                        name@,
                        start,
                    ),
                decreases record.items@.len() - j,
            {
                proof {
                    assert(all.take(j + 1).drop_last() =~= all.take(j as int));
                    assert(all.take(j + 1).last() == record.items@[j as int]@);
                }
                let item = &record.items[j];
                let ghost before = crate::index::location_views(out@);
                if item.kind == kind && item.name.as_str().eq_ignore_ascii_case(name) {
                    out.push(Location { file: record.file.clone(), span: item.span });
                    assert(crate::index::location_views(out@) =~= before.push(
                        LocationView { file: record.file@, span: item.span },
                    ));
                }
                j += 1;
            }
            proof {
                assert(all.take(j as int) =~= all);
                assert(records.take(i + 1).drop_last() =~= records.take(i as int));
                assert(records.take(i + 1).last() == record@);
            }
            i += 1;
        }
        assert(records.take(i as int) =~= records);
        out
    }
}

pub open spec fn model_views(s: Seq<&ModelAsset>) -> Seq<ModelView> {
    Seq::new(s.len(), |i: int| s[i]@)
}

/// Whether a list holds a name, in any case.
pub fn name_listed(names: &Vec<&str>, name: &str) -> (yes: bool)
    ensures
        yes == lists_name(str_views(names@), name@),
{
    let ghost all = str_views(names@);
    let mut i: usize = 0;
    while i < names.len()
        invariant
            i <= names@.len(),
            all == str_views(names@),
            forall|k: int| 0 <= k < i ==> !same_ignoring_case(#[trigger] all[k], name@),
        decreases names@.len() - i,
    {
        assert(all[i as int] == names@[i as int]@);
        if names[i].eq_ignore_ascii_case(name) {
            return true;
        }
        i += 1;
    }
    false
}

/// Law: what was set for a file is what the file's record holds, and no other
/// record changes.
pub proof fn record_is_replaced<V>(
    records: Seq<RecordView<V>>,
    file: Seq<char>,
    items: Seq<V>,
    other: Seq<char>,
)
    ensures
        ({
            let after = with_record(records, file, items);
            let i = record_position(after, file, 0);
            &&& 0 <= i < after.len()
            &&& after[i] == (RecordView { file, items })
        }),
        ({
            let after = with_record(records, file, items);
            let i = record_position(records, other, 0);
            other != file && 0 <= i < records.len() ==> record_position(after, other, 0) == i
                && after[i] == records[i]
        }),
{
    let after = with_record(records, file, items);
    lemma_position_found(records, file, 0);
    lemma_position_found(records, other, 0);
    let i = record_position(records, file, 0);
    assert forall|k: int| 0 <= k < i implies (#[trigger] after[k]).file != file by {
        assert(after[k] == records[k]);
    }
    lemma_position_is(after, file, 0, i);
    let j = record_position(records, other, 0);
    if other != file && j < records.len() {
        assert forall|k: int| 0 <= k < j implies (#[trigger] after[k]).file != other by {
            if k != i {
                assert(after[k] == records[k]);
            }
        }
        lemma_position_is(after, other, 0, j);
    }
}

proof fn lemma_position_found<V>(records: Seq<RecordView<V>>, file: Seq<char>, i: int)
    requires
        0 <= i <= records.len(),
    ensures
        i <= record_position(records, file, i) <= records.len(),
        record_position(records, file, i) < records.len() ==> records[record_position(
            records,
            file,
            i,
        )].file == file,
        forall|k: int|
            i <= k < record_position(records, file, i) ==> (#[trigger] records[k]).file != file,
    decreases records.len() - i,
{
    if i < records.len() && records[i].file != file {
        lemma_position_found(records, file, i + 1);
    }
}

proof fn lemma_position_is<V>(records: Seq<RecordView<V>>, file: Seq<char>, i: int, at: int)
    requires
        0 <= i <= at < records.len(),
        records[at].file == file,
        forall|k: int| i <= k < at ==> (#[trigger] records[k]).file != file,
    ensures
        record_position(records, file, i) == at,
    decreases at - i,
{
    if i < at {
        assert(records[i].file != file);
        lemma_position_is(records, file, i + 1, at);
    }
}

} // verus!
