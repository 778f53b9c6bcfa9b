//! Laws of what is known about a workspace beside its definitions: which tags, models
//! and references are found, in terms of what its files were recorded with.

use vstd::prelude::*;
use vstd::string::*;

use crate::completion::{
    asset_completions, fresh_members, ini_name, keys_beside, member_names, named, scope_models,
    tag_completions, type_completions, value_completions, CompletionKind, CompletionView,
};
use crate::completion_laws::{lemma_named, offers, own_type};
use crate::facts::{
    all_items, lists_name, members_of, record_position, sites_in, sites_of, tags_of, FactsView,
    ModelView, RecordView, TagView,
};
use crate::index::{IndexView, LocationView};
use crate::lines::{leaf_at, name_at, second_word_is_the_name};
use crate::model::path_scope;
use crate::nav::ReferenceView;
use crate::schema::{RefKind, Schema, ValueType};
use crate::text::{lower, same_ignoring_case};
use crate::tree::NodeView;

verus! {

/// Some file was recorded with this item.
pub open spec fn is_recorded<V>(records: Seq<RecordView<V>>, item: V) -> bool {
    exists|r: int| 0 <= r < records.len() && (#[trigger] records[r]).items.contains(item)
}

/// Law: what is known is what the files were recorded with.
pub proof fn items_are_recorded<V>(records: Seq<RecordView<V>>, item: V)
    ensures
        all_items(records).contains(item) <==> is_recorded(records, item),
    decreases records.len(),
{
    if records.len() > 0 {
        let rest = records.drop_last();
        let n = records.len() - 1;
        let (before, own, all) = (all_items(rest), records[n].items, all_items(records));
        items_are_recorded(rest, item);
        if before.contains(item) {
            let i = choose|i: int| 0 <= i < before.len() && before[i] == item;
            assert(all[i] == item);
            let r = choose|r: int|
                0 <= r < rest.len() && (#[trigger] rest[r]).items.contains(item);
            assert(records[r] == rest[r]);
        }
        if own.contains(item) {
            let i = choose|i: int| 0 <= i < own.len() && own[i] == item;
            assert(all[before.len() + i] == item);
            assert(records[n].items.contains(item));
        }
        if all.contains(item) {
            let i = choose|i: int| 0 <= i < all.len() && all[i] == item;
            if i < before.len() {
                assert(before[i] == item);
            } else {
                assert(own[i - before.len()] == item);
            }
        }
        if is_recorded(records, item) {
            let r = choose|r: int|
                0 <= r < records.len() && (#[trigger] records[r]).items.contains(item);
            if r < n {
                assert(rest[r] == records[r]);
            }
        }
    }
}

/// Law: the tags of an object are those that stand under its name, in any case.
pub proof fn tags_go_by_object(tags: Seq<TagView>, object: Seq<char>, tag: Seq<char>)
    ensures
        tags_of(tags, object).contains(tag) <==> exists|i: int|
            0 <= i < tags.len() && lower((#[trigger] tags[i]).object) == lower(object)
                && tags[i].tag == tag,
    decreases tags.len(),
{
    if tags.len() > 0 {
        let rest = tags.drop_last();
        let n = tags.len() - 1;
        let (before, all) = (tags_of(rest, object), tags_of(tags, object));
        tags_go_by_object(rest, object, tag);
        if before.contains(tag) {
            let j = choose|j: int| 0 <= j < before.len() && before[j] == tag;
            assert(all[j] == tag);
            let i = choose|i: int|
                0 <= i < rest.len() && lower((#[trigger] rest[i]).object) == lower(object)
                    && rest[i].tag == tag;
            assert(tags[i] == rest[i]);
        } else {
            if all.contains(tag) {
                let j = choose|j: int| 0 <= j < all.len() && all[j] == tag;
                if j < before.len() {
                    assert(before[j] == tag);
                }
                assert(tags[n].tag == tag);
            }
            if exists|i: int|
                0 <= i < tags.len() && lower((#[trigger] tags[i]).object) == lower(object)
                    && tags[i].tag == tag {
                let i = choose|i: int|
                    0 <= i < tags.len() && lower((#[trigger] tags[i]).object) == lower(object)
                        && tags[i].tag == tag;
                if i < n {
                    assert(rest[i] == tags[i]);
                }
                assert(all[before.len() as int] == tag);
            }
        }
    }
}

/// Law: the members of a model are those of every model of its name, in any case.
pub proof fn members_go_by_model(models: Seq<ModelView>, name: Seq<char>, member: Seq<char>)
    ensures
        members_of(models, name).contains(member) <==> exists|i: int|
            0 <= i < models.len() && lower((#[trigger] models[i]).name) == lower(name)
                && models[i].members.contains(member),
    decreases models.len(),
{
    if models.len() > 0 {
        let rest = models.drop_last();
        let n = models.len() - 1;
        let (before, all) = (members_of(rest, name), members_of(models, name));
        members_go_by_model(rest, name, member);
        if before.contains(member) {
            let j = choose|j: int| 0 <= j < before.len() && before[j] == member;
            assert(all[j] == member);
            let i = choose|i: int|
                0 <= i < rest.len() && lower((#[trigger] rest[i]).name) == lower(name)
                    && rest[i].members.contains(member);
            assert(models[i] == rest[i]);
        } else {
            if all.contains(member) {
                let j = choose|j: int| 0 <= j < all.len() && all[j] == member;
                if j < before.len() {
                    assert(before[j] == member);
                }
                assert(models[n].members[j - before.len()] == member);
            }
            if exists|i: int|
                0 <= i < models.len() && lower((#[trigger] models[i]).name) == lower(name)
                    && models[i].members.contains(member) {
                let i = choose|i: int|
                    0 <= i < models.len() && lower((#[trigger] models[i]).name) == lower(name)
                        && models[i].members.contains(member);
                if i < n {
                    assert(rest[i] == models[i]);
                }
                let j = choose|j: int|
                    0 <= j < models[i].members.len() && models[i].members[j] == member;
                assert(all[before.len() + j] == member);
            }
        }
    }
}

/// A file was recorded with a reference of a kind to a name, at this place.
pub open spec fn is_site(
    records: Seq<RecordView<ReferenceView>>,
    kind: RefKind,
    name: Seq<char>,
    site: LocationView,
) -> bool {
    exists|r: int, i: int|
        #![trigger records[r].items[i]]
        0 <= r < records.len() && 0 <= i < records[r].items.len() && refers(
            records[r].items[i],
            kind,
            name,
        ) && site == (LocationView { file: records[r].file, span: records[r].items[i].span })
}

/// A reference is of a kind and to a name, in any case.
pub open spec fn refers(reference: ReferenceView, kind: RefKind, name: Seq<char>) -> bool {
    reference.kind == kind && lower(reference.name) == lower(name)
}

proof fn lemma_sites_in(
    file: Seq<char>,
    references: Seq<ReferenceView>,
    kind: RefKind,
    name: Seq<char>,
    acc: Seq<LocationView>,
    site: LocationView,
)
    ensures
        sites_in(file, references, kind, name, acc).contains(site) <==> acc.contains(site)
            || exists|i: int|
            0 <= i < references.len() && refers(#[trigger] references[i], kind, name) && site == (
            LocationView { file, span: references[i].span }),
    decreases references.len(),
{
    if references.len() > 0 {
        let rest = references.drop_last();
        let n = references.len() - 1;
        let before = sites_in(file, rest, kind, name, acc);
        let all = sites_in(file, references, kind, name, acc);
        lemma_sites_in(file, rest, kind, name, acc, site);
        if before.contains(site) {
            let j = choose|j: int| 0 <= j < before.len() && before[j] == site;
            assert(all[j] == site);
            if !acc.contains(site) {
                let i = choose|i: int|
                    0 <= i < rest.len() && refers(#[trigger] rest[i], kind, name) && site == (
                    LocationView { file, span: rest[i].span });
                assert(references[i] == rest[i]);
            }
        } else {
            if all.contains(site) {
                let j = choose|j: int| 0 <= j < all.len() && all[j] == site;
                if j < before.len() {
                    assert(before[j] == site);
                }
                assert(refers(references[n], kind, name));
            }
            if exists|i: int|
                0 <= i < references.len() && refers(#[trigger] references[i], kind, name) && site
                    == (LocationView { file, span: references[i].span }) {
                let i = choose|i: int|
                    0 <= i < references.len() && refers(#[trigger] references[i], kind, name)
                        && site == (LocationView { file, span: references[i].span });
                if i < n {
                    assert(refers(rest[i], kind, name));
                }
                assert(all[before.len() as int] == site);
            }
        }
    }
}

/// Law: the places that refer to a name are those that the files were recorded with,
/// of the same kind, with the name in any case.
pub proof fn sites_go_by_kind_and_name(
    records: Seq<RecordView<ReferenceView>>,
    kind: RefKind,
    name: Seq<char>,
    site: LocationView,
)
    ensures
        sites_of(records, kind, name).contains(site) <==> is_site(records, kind, name, site),
    decreases records.len(),
{
    if records.len() > 0 {
        let rest = records.drop_last();
        let n = records.len() - 1;
        let before = sites_of(rest, kind, name);
        let items = records[n].items;
        sites_go_by_kind_and_name(rest, kind, name, site);
        lemma_sites_in(records[n].file, items, kind, name, before, site);
        if before.contains(site) {
            let (r, i) = choose|r: int, i: int|
                #![trigger rest[r].items[i]]
                0 <= r < rest.len() && 0 <= i < rest[r].items.len() && refers(
                    rest[r].items[i],
                    kind,
                    name,
                ) && site == (LocationView { file: rest[r].file, span: rest[r].items[i].span });
            assert(records[r].items[i] == rest[r].items[i]);
        } else if sites_of(records, kind, name).contains(site) {
            let i = choose|i: int|
                0 <= i < items.len() && refers(#[trigger] items[i], kind, name) && site == (
                LocationView { file: records[n].file, span: items[i].span });
            assert(refers(records[n].items[i], kind, name));
        }
        if is_site(records, kind, name, site) {
            let (r, i) = choose|r: int, i: int|
                #![trigger records[r].items[i]]
                0 <= r < records.len() && 0 <= i < records[r].items.len() && refers(
                    records[r].items[i],
                    kind,
                    name,
                ) && site == (LocationView {
                    file: records[r].file,
                    span: records[r].items[i].span,
                });
            if r < n {
                assert(rest[r].items[i] == records[r].items[i]);
                assert(is_site(rest, kind, name, site));
            } else {
                assert(refers(items[i], kind, name));
            }
        }
    }
}

// ---------------------------------------------------------------------------
// Completion
// ---------------------------------------------------------------------------
proof fn lemma_offered(
    names: Seq<Seq<char>>,
    kind: CompletionKind,
    detail: Seq<char>,
    label: Seq<char>,
)
    ensures
        offers(named(names, kind, detail, Seq::empty()), label, kind)
            <==> names.contains(label),
        forall|i: int|
            #![trigger named(names, kind, detail, Seq::empty())[i]]
            0 <= i < names.len() ==> named(
                names,
                kind,
                detail,
                Seq::empty(),
            )[i].kind == kind,
{
    let none = Seq::<CompletionView>::empty();
    let items = named(names, kind, detail, none);
    lemma_named(names, kind, detail, none);
    assert forall|i: int| 0 <= i < names.len() implies (#[trigger] items[i]).kind == kind
        && items[i].label == names[i] by {
        assert(names[i] == items[none.len() + i].label);
    }
    if names.contains(label) {
        let i = choose|i: int| 0 <= i < names.len() && names[i] == label;
        assert(items[i].label == label);
    }
    if offers(items, label, kind) {
        let i = choose|i: int|
            0 <= i < items.len() && (#[trigger] items[i]).label == label && items[i].kind == kind;
        assert(names[i] == label);
    }
}

/// Law: where a module of an object is removed or replaced, exactly the tags are
/// offered that some file has for an object of this name.
pub proof fn tags_are_offered(
    path: Seq<NodeView>,
    object: NodeView,
    n: int,
    key: Seq<char>,
    facts: FactsView,
    label: Seq<char>,
)
    requires
        path.len() > 0,
        path.last() == object,
        name_at(object, n),
        lower(key) == lower("RemoveModule"@) || lower(key) == lower("ReplaceModule"@),
    ensures
        offers(tag_completions(path, key, Some(facts)), label, CompletionKind::Reference)
            <==> exists|tag: TagView| #[trigger]
            is_recorded(facts.tags, tag) && lower(tag.object) == lower(leaf_at(object, n).text)
                && tag.tag == label,
{
    second_word_is_the_name(object, n);
    let name = leaf_at(object, n).text;
    let all = all_items(facts.tags);
    let names = tags_of(all, name);
    lemma_offered(names, CompletionKind::Reference, "module tag"@, label);
    tags_go_by_object(all, name, label);
    if names.contains(label) {
        let i = choose|i: int|
            0 <= i < all.len() && lower((#[trigger] all[i]).object) == lower(name) && all[i].tag
                == label;
        assert(all.contains(all[i]));
        items_are_recorded(facts.tags, all[i]);
        assert(is_recorded(facts.tags, all[i]));
    }
    if exists|tag: TagView| #[trigger]
        is_recorded(facts.tags, tag) && lower(tag.object) == lower(name) && tag.tag == label {
        let tag = choose|tag: TagView| #[trigger]
            is_recorded(facts.tags, tag) && lower(tag.object) == lower(name) && tag.tag == label;
        items_are_recorded(facts.tags, tag);
        let i = choose|i: int| 0 <= i < all.len() && all[i] == tag;
        assert(lower(all[i].object) == lower(name));
    }
}

/// Law: elsewhere no tags are offered.
pub proof fn tags_are_not_offered_elsewhere(
    path: Seq<NodeView>,
    key: Seq<char>,
    facts: Option<FactsView>,
)
    requires
        lower(key) != lower("RemoveModule"@),
        lower(key) != lower("ReplaceModule"@),
    ensures
        tag_completions(path, key, facts).len() == 0,
{
}

/// Law: a member of a model is written without the digits at its end.
pub proof fn members_lose_their_numbers(member: Seq<char>)
    ensures
        ({
            let name = ini_name(member);
            &&& name.len() <= member.len()
            &&& member.take(name.len() as int) == name
            &&& name.len() > 0 ==> !('0' <= name.last() <= '9')
            &&& forall|i: int|
                name.len() <= i < member.len() ==> '0' <= (#[trigger] member[i]) <= '9'
        }),
    decreases member.len(),
{
    let name = ini_name(member);
    if member.len() > 0 && '0' <= member.last() <= '9' {
        let rest = member.drop_last();
        members_lose_their_numbers(rest);
        assert(rest.take(name.len() as int) =~= member.take(name.len() as int));
        assert forall|i: int| name.len() <= i < member.len() implies '0' <= (
        #[trigger] member[i]) <= '9' by {
            if i < rest.len() {
                assert('0' <= rest[i] <= '9');
            }
        }
    } else {
        assert(member.take(member.len() as int) =~= member);
    }
}

proof fn lemma_fresh(members: Seq<Seq<char>>, acc: Seq<Seq<char>>, name: Seq<char>)
    ensures
        lists_name(fresh_members(members, acc), name) <==> lists_name(acc, name) || exists|i: int|
            0 <= i < members.len() && lower(ini_name(#[trigger] members[i])) == lower(name),
    decreases members.len(),
{
    if members.len() > 0 {
        let rest = members.drop_last();
        let n = members.len() - 1;
        let before = fresh_members(rest, acc);
        let all = fresh_members(members, acc);
        let last = ini_name(members[n]);
        lemma_fresh(rest, acc, name);
        if lists_name(before, name) {
            let j = choose|j: int|
                0 <= j < before.len() && same_ignoring_case(#[trigger] before[j], name);
            assert(all[j] == before[j]);
            assert(same_ignoring_case(all[j], name));
            if !lists_name(acc, name) {
                let i = choose|i: int|
                    0 <= i < rest.len() && lower(ini_name(#[trigger] rest[i])) == lower(name);
                assert(members[i] == rest[i]);
            }
        } else {
            if lists_name(all, name) {
                let j = choose|j: int|
                    0 <= j < all.len() && same_ignoring_case(#[trigger] all[j], name);
                if j < before.len() {
                    assert(same_ignoring_case(before[j], name));
                }
                assert(lower(ini_name(members[n])) == lower(name));
            }
            if exists|i: int|
                0 <= i < members.len() && lower(ini_name(#[trigger] members[i])) == lower(name) {
                let i = choose|i: int|
                    0 <= i < members.len() && lower(ini_name(#[trigger] members[i])) == lower(name);
                if i < n {
                    assert(lower(ini_name(rest[i])) == lower(name));
                } else {
                    if lists_name(before, last) {
                        let j = choose|j: int|
                            0 <= j < before.len() && same_ignoring_case(#[trigger] before[j], last);
                        assert(same_ignoring_case(before[j], name));
                    }
                    assert(same_ignoring_case(all[before.len() as int], name));
                }
            }
        }
    }
}

/// A model of the workspace has a member that is written as this name.
pub open spec fn is_member(facts: FactsView, model: Seq<char>, name: Seq<char>) -> bool {
    exists|member: Seq<char>| #[trigger]
        members_of(all_items(facts.models), model).contains(member) && lower(ini_name(member))
            == lower(name)
}

proof fn lemma_member_names(facts: FactsView, models: Seq<Seq<char>>, name: Seq<char>)
    ensures
        lists_name(member_names(facts, models), name) <==> exists|m: int|
            0 <= m < models.len() && is_member(facts, #[trigger] models[m], name),
    decreases models.len(),
{
    if models.len() > 0 {
        let rest = models.drop_last();
        let n = models.len() - 1;
        let members = members_of(all_items(facts.models), models[n]);
        lemma_member_names(facts, rest, name);
        lemma_fresh(members, member_names(facts, rest), name);
        if lists_name(member_names(facts, rest), name) {
            let m = choose|m: int| 0 <= m < rest.len() && is_member(facts, #[trigger] rest[m], name);
            assert(models[m] == rest[m]);
        } else if lists_name(member_names(facts, models), name) {
            let i = choose|i: int|
                0 <= i < members.len() && lower(ini_name(#[trigger] members[i])) == lower(name);
            assert(members.contains(members[i]));
            assert(is_member(facts, models[n], name));
        }
        if exists|m: int| 0 <= m < models.len() && is_member(facts, #[trigger] models[m], name) {
            let m = choose|m: int|
                0 <= m < models.len() && is_member(facts, #[trigger] models[m], name);
            if m < n {
                assert(is_member(facts, rest[m], name));
            } else {
                let member = choose|member: Seq<char>| #[trigger]
                    members.contains(member) && lower(ini_name(member)) == lower(name);
                let i = choose|i: int| 0 <= i < members.len() && members[i] == member;
                assert(lower(ini_name(members[i])) == lower(name));
            }
        }
    }
}

/// Law: where a member of a model is asked for and the workspace has models, exactly
/// the members of the models of the scope are offered, each in some case.
pub proof fn members_are_offered(
    schema: Schema,
    path: Seq<NodeView>,
    ty: ValueType,
    p: int,
    facts: FactsView,
    name: Seq<char>,
)
    requires
        own_type(ty, p) is W3dModelMember,
        all_items(facts.models).len() > 0,
    ensures
        ({
            let models = scope_models(schema, path, Seq::empty());
            &&& asset_completions(schema, path, ty, p, Some(facts)) matches Some(items)
            &&& (exists|i: int|
                0 <= i < items.len() && lower((#[trigger] items[i]).label) == lower(name)
                    && items[i].kind == CompletionKind::Reference) <==> (exists|m: int|
                0 <= m < models.len() && is_member(facts, #[trigger] models[m], name))
        }),
{
    let models = scope_models(schema, path, Seq::empty());
    let names = member_names(facts, models);
    let none = Seq::<CompletionView>::empty();
    lemma_named(names, CompletionKind::Reference, "W3D model member"@, none);
    lemma_member_names(facts, models, name);
    let items = asset_completions(schema, path, ty, p, Some(facts))->0;
    if lists_name(names, name) {
        let i = choose|i: int|
            0 <= i < names.len() && same_ignoring_case(#[trigger] names[i], name);
        assert(items[none.len() + i].label == names[i]);
        assert(lower(items[i].label) == lower(name));
    }
    if exists|i: int|
        0 <= i < items.len() && lower((#[trigger] items[i]).label) == lower(name) && items[i].kind
            == CompletionKind::Reference {
        let i = choose|i: int|
            0 <= i < items.len() && lower((#[trigger] items[i]).label) == lower(name)
                && items[i].kind == CompletionKind::Reference;
        assert(names[i] == items[none.len() + i].label);
        assert(same_ignoring_case(names[i], name));
    }
}

proof fn lemma_record_position<V>(records: Seq<RecordView<V>>, file: Seq<char>, i: int, r: int)
    requires
        0 <= i <= r < records.len(),
        records[r].file == file,
        forall|q: int| i <= q < r ==> (#[trigger] records[q]).file != file,
    ensures
        record_position(records, file, i) == r,
    decreases r - i,
{
    if i < r {
        assert(records[i].file != file);
        lemma_record_position(records, file, i + 1, r);
    }
}

/// Law: for the name of a thing, the string keys are offered too that lie beside the
/// file, behind what is offered for the type.
pub proof fn string_keys_are_offered(
    schema: Schema,
    path: Seq<NodeView>,
    key: Seq<char>,
    p: int,
    index: Option<IndexView>,
    facts: FactsView,
    file: Seq<char>,
    r: int,
    label: Seq<char>,
)
    requires
        lower(key) == lower("DisplayName"@),
        lower(key) != lower("RemoveModule"@),
        lower(key) != lower("ReplaceModule"@),
        0 <= r < facts.keys.len(),
        facts.keys[r].file == file,
        forall|q: int| 0 <= q < r ==> (#[trigger] facts.keys[q]).file != file,
        facts.keys[r].items.contains(label),
    ensures
        offers(
            value_completions(schema, path, key, p, index, Some(facts), Some(file)),
            label,
            CompletionKind::Value,
        ),
{
    lemma_record_position(facts.keys, file, 0, r);
    let keys = keys_beside(facts, file);
    let base = match path_scope(schema, path).field(key) {
        Some(field) => match asset_completions(schema, path, field.value_type, p, Some(facts)) {
            Some(assets) => assets,
            None => type_completions(schema, field.value_type, p, index),
        },
        None => Seq::empty(),
    };
    lemma_named(keys, CompletionKind::Value, "string key"@, base);
    let items = value_completions(schema, path, key, p, index, Some(facts), Some(file));
    let i = choose|i: int| 0 <= i < keys.len() && keys[i] == label;
    assert(keys[i] == label);
    assert(items[base.len() + i].label == label);
}

} // verus!
