//! What holds of the workspace index as files come and go: the entries and the
//! per-file records agree, a file's symbols are replaced as a whole, and the
//! generation tells when the set of defined names may have changed.

use vstd::prelude::*;

use crate::checks::name_set;
use crate::index::{
    defined_names, entry_position, locations_elsewhere, other_files, recorded_names,
    with_definition, with_definitions, without_file, DefinitionView, EntryView, FileView,
    IndexView, LocationView,
};
use crate::schema::RefKind;
use crate::text::lower;

verus! {

/// Whether some location lies in `file`.
pub open spec fn has_file(locations: Seq<LocationView>, file: Seq<char>) -> bool {
    exists|j: int| 0 <= j < locations.len() && (#[trigger] locations[j]).file == file
}

/// Whether `file` contributes a definition of the lower-case `name`.
pub open spec fn placed(
    entries: Seq<EntryView>,
    kind: RefKind,
    name: Seq<char>,
    file: Seq<char>,
) -> bool {
    exists|i: int|
        0 <= i < entries.len() && (#[trigger] entries[i]).kind == kind && entries[i].name == name
            && has_file(entries[i].locations, file)
}

/// Whether the record of `file` lists the lower-case `name`.
pub open spec fn recorded(
    files: Seq<FileView>,
    kind: RefKind,
    name: Seq<char>,
    file: Seq<char>,
) -> bool {
    match recorded_names(files, file) {
        Some(names) => names.contains((kind, name)),
        None => false,
    }
}

/// No two entries are of one kind and name.
pub open spec fn distinct_entries(entries: Seq<EntryView>) -> bool {
    forall|i: int, j: int| #![trigger entries[i], entries[j]]
        0 <= i < j < entries.len() ==> entries[i].kind != entries[j].kind || entries[i].name
            != entries[j].name
}

/// No two entries are of one name, every entry has a location, and an entry has a
/// location in a file exactly when the file's record lists the name.
pub open spec fn consistent(index: IndexView) -> bool {
    &&& distinct_entries(index.entries)
    &&& forall|i: int|
        0 <= i < index.entries.len() ==> (#[trigger] index.entries[i]).locations.len() > 0
    &&& forall|kind: RefKind, name: Seq<char>, file: Seq<char>| #[trigger]
        placed(index.entries, kind, name, file) <==> recorded(index.files, kind, name, file)
}

proof fn lemma_elsewhere(s: Seq<LocationView>, file: Seq<char>, other: Seq<char>)
    ensures
        has_file(locations_elsewhere(s, file), other) <==> other != file && has_file(s, other),
    decreases s.len(),
{
    if s.len() > 0 {
        let rest = s.drop_last();
        lemma_elsewhere(rest, file, other);
        let kept = locations_elsewhere(s, file);
        let before = locations_elsewhere(rest, file);
        if has_file(rest, other) {
            let j = choose|j: int| 0 <= j < rest.len() && (#[trigger] rest[j]).file == other;
            assert(s[j].file == other);
        }
        if has_file(s, other) && !has_file(rest, other) {
            let j = choose|j: int| 0 <= j < s.len() && (#[trigger] s[j]).file == other;
            if j < rest.len() {
                assert(rest[j].file == other);
            }
        }
        if has_file(before, other) {
            let j = choose|j: int| 0 <= j < before.len() && (#[trigger] before[j]).file == other;
            assert(kept[j].file == other);
        }
        if has_file(kept, other) && !has_file(before, other) {
            let j = choose|j: int| 0 <= j < kept.len() && (#[trigger] kept[j]).file == other;
            if j < before.len() {
                assert(before[j].file == other);
            }
        }
        assert(s[s.len() - 1] == s.last());
        if s.last().file != file {
            assert(kept[kept.len() - 1] == s.last());
        }
    }
}

proof fn lemma_placed_step(
    entries: Seq<EntryView>,
    kind: RefKind,
    name: Seq<char>,
    file: Seq<char>,
)
    requires
        entries.len() > 0,
    ensures
        placed(entries, kind, name, file) <==> placed(entries.drop_last(), kind, name, file)
            || entries.last().kind == kind && entries.last().name == name && has_file(
            entries.last().locations,
            file,
        ),
{
    let rest = entries.drop_last();
    if placed(rest, kind, name, file) {
        let i = choose|i: int|
            0 <= i < rest.len() && (#[trigger] rest[i]).kind == kind && rest[i].name == name
                && has_file(rest[i].locations, file);
        assert(entries[i] == rest[i]);
    }
    if placed(entries, kind, name, file) {
        let i = choose|i: int|
            0 <= i < entries.len() && (#[trigger] entries[i]).kind == kind && entries[i].name
                == name && has_file(entries[i].locations, file);
        if i < rest.len() {
            assert(rest[i] == entries[i]);
        }
    }
    assert(entries[entries.len() - 1] == entries.last());
}

proof fn lemma_without(
    entries: Seq<EntryView>,
    file: Seq<char>,
    kind: RefKind,
    name: Seq<char>,
    other: Seq<char>,
)
    ensures
        placed(without_file(entries, file), kind, name, other) <==> other != file && placed(
            entries,
            kind,
            name,
            other,
        ),
    decreases entries.len(),
{
    if entries.len() > 0 {
        lemma_without(entries.drop_last(), file, kind, name, other);
        lemma_placed_step(entries, kind, name, other);
        lemma_elsewhere(entries.last().locations, file, other);
        let kept = locations_elsewhere(entries.last().locations, file);
        let rest = without_file(entries.drop_last(), file);
        if kept.len() > 0 {
            let last = EntryView { locations: kept, ..entries.last() };
            assert(rest.push(last).drop_last() =~= rest);
            lemma_placed_step(rest.push(last), kind, name, other);
        }
    }
}

proof fn lemma_without_nonempty(entries: Seq<EntryView>, file: Seq<char>)
    ensures
        forall|i: int|
            0 <= i < without_file(entries, file).len() ==> (#[trigger] without_file(
                entries,
                file,
            )[i]).locations.len() > 0,
    decreases entries.len(),
{
    if entries.len() > 0 {
        lemma_without_nonempty(entries.drop_last(), file);
    }
}

proof fn lemma_position(entries: Seq<EntryView>, kind: RefKind, name: Seq<char>)
    ensures
        0 <= entry_position(entries, kind, name) <= entries.len(),
        entry_position(entries, kind, name) < entries.len() ==> {
            let e = entries[entry_position(entries, kind, name)];
            e.kind == kind && e.name == name
        },
        entry_position(entries, kind, name) == entries.len() ==> forall|i: int|
            0 <= i < entries.len() ==> !((#[trigger] entries[i]).kind == kind && entries[i].name
                == name),
    decreases entries.len(),
{
    if entries.len() > 0 {
        lemma_position(entries.drop_last(), kind, name);
        assert forall|i: int|
            entry_position(entries, kind, name) == entries.len() && 0 <= i
                < entries.len() implies !((#[trigger] entries[i]).kind == kind && entries[i].name
            == name) by {
            if i < entries.len() - 1 {
                assert(entries.drop_last()[i] == entries[i]);
            }
        }
    }
}

proof fn lemma_with_definition(
    entries: Seq<EntryView>,
    file: Seq<char>,
    def: DefinitionView,
    kind: RefKind,
    name: Seq<char>,
    other: Seq<char>,
)
    ensures
        placed(with_definition(entries, file, def), kind, name, other) <==> placed(
            entries,
            kind,
            name,
            other,
        ) || other == file && kind == def.kind && name == lower(def.name),
{
    let at = entry_position(entries, def.kind, lower(def.name));
    lemma_position(entries, def.kind, lower(def.name));
    let location = LocationView { file, span: def.span };
    let after = with_definition(entries, file, def);
    if at < entries.len() {
        let grown = entries[at].locations.push(location);
        assert(after[at].locations == grown);
        assert(has_file(grown, other) <==> has_file(entries[at].locations, other) || other
            == file) by {
            if has_file(entries[at].locations, other) {
                let j = choose|j: int|
                    0 <= j < entries[at].locations.len() && (
                    #[trigger] entries[at].locations[j]).file == other;
                assert(grown[j].file == other);
            }
            assert(grown[grown.len() - 1].file == file);
            if has_file(grown, other) {
                let j = choose|j: int| 0 <= j < grown.len() && (#[trigger] grown[j]).file == other;
                if j < entries[at].locations.len() {
                    assert(entries[at].locations[j].file == other);
                }
            }
        }
        if placed(entries, kind, name, other) {
            let i = choose|i: int|
                0 <= i < entries.len() && (#[trigger] entries[i]).kind == kind && entries[i].name
                    == name && has_file(entries[i].locations, other);
            assert(after[i].kind == kind && after[i].name == name && has_file(
                after[i].locations,
                other,
            ));
        }
        if placed(after, kind, name, other) {
            let i = choose|i: int|
                0 <= i < after.len() && (#[trigger] after[i]).kind == kind && after[i].name == name
                    && has_file(after[i].locations, other);
            if i != at {
                assert(entries[i] == after[i]);
            } else {
                assert(entries[i].kind == kind && entries[i].name == name);
            }
        }
        if other == file && kind == def.kind && name == lower(def.name) {
            assert(after[at].kind == kind && after[at].name == name);
        }
    } else {
        assert(after.drop_last() =~= entries);
        lemma_placed_step(after, kind, name, other);
        let one = seq![location];
        assert(one[0].file == file);
        assert(has_file(one, other) <==> other == file);
    }
}

proof fn lemma_with_definitions(
    entries: Seq<EntryView>,
    file: Seq<char>,
    defs: Seq<DefinitionView>,
    kind: RefKind,
    name: Seq<char>,
    other: Seq<char>,
)
    ensures
        placed(with_definitions(entries, file, defs), kind, name, other) <==> placed(
            entries,
            kind,
            name,
            other,
        ) || other == file && defined_names(defs).contains((kind, name)),
    decreases defs.len(),
{
    if defs.len() > 0 {
        let rest = defs.drop_last();
        lemma_with_definitions(entries, file, rest, kind, name, other);
        lemma_with_definition(
            with_definitions(entries, file, rest),
            file,
            defs.last(),
            kind,
            name,
            other,
        );
        let names = defined_names(defs);
        let before = defined_names(rest);
        assert(names =~= before.push((defs.last().kind, lower(defs.last().name))));
        if before.contains((kind, name)) {
            let i = choose|i: int| 0 <= i < before.len() && before[i] == (kind, name);
            assert(names[i] == (kind, name));
        }
        assert(names[names.len() - 1] == (defs.last().kind, lower(defs.last().name)));
        if names.contains((kind, name)) {
            let i = choose|i: int| 0 <= i < names.len() && names[i] == (kind, name);
            if i < before.len() {
                assert(before[i] == (kind, name));
            }
        }
    } else {
        assert(!defined_names(defs).contains((kind, name)));
    }
}

proof fn lemma_other_files(files: Seq<FileView>, file: Seq<char>, other: Seq<char>)
    ensures
        recorded_names(other_files(files, file), other) == if other == file {
            None
        } else {
            recorded_names(files, other)
        },
    decreases files.len(),
{
    if files.len() > 0 {
        lemma_other_files(files.drop_last(), file, other);
        if files.last().file != file {
            assert(other_files(files, file).drop_last() =~= other_files(files.drop_last(), file));
        }
    }
}

// ---------------------------------------------------------------------------
// Locations
// ---------------------------------------------------------------------------
/// The locations of a lower-case name.
spec fn places(entries: Seq<EntryView>, kind: RefKind, name: Seq<char>) -> Seq<LocationView> {
    let i = entry_position(entries, kind, name);
    if i < entries.len() {
        entries[i].locations
    } else {
        Seq::empty()
    }
}

spec fn all_placed(entries: Seq<EntryView>) -> bool {
    forall|i: int| 0 <= i < entries.len() ==> (#[trigger] entries[i]).locations.len() > 0
}

/// The locations in `file` that a list of definitions gives a lower-case name.
pub open spec fn new_locations(
    defs: Seq<DefinitionView>,
    file: Seq<char>,
    kind: RefKind,
    name: Seq<char>,
) -> Seq<LocationView>
    decreases defs.len(),
{
    if defs.len() == 0 {
        Seq::empty()
    } else {
        let rest = new_locations(defs.drop_last(), file, kind, name);
        if defs.last().kind == kind && lower(defs.last().name) == name {
            rest.push(LocationView { file, span: defs.last().span })
        } else {
            rest
        }
    }
}

proof fn lemma_places_push(entries: Seq<EntryView>, e: EntryView, kind: RefKind, name: Seq<char>)
    requires
        all_placed(entries),
    ensures
        places(entries.push(e), kind, name) == if places(entries, kind, name).len() > 0 {
            places(entries, kind, name)
        } else if e.kind == kind && e.name == name {
            e.locations
        } else {
            Seq::empty()
        },
{
    let all = entries.push(e);
    assert(all.drop_last() =~= entries);
    lemma_position(entries, kind, name);
}

proof fn lemma_places_none(entries: Seq<EntryView>, kind: RefKind, name: Seq<char>)
    requires
        all_placed(entries),
    ensures
        places(entries, kind, name).len() == 0 <==> entry_position(entries, kind, name)
            == entries.len(),
{
    lemma_position(entries, kind, name);
}

proof fn lemma_distinct_push(entries: Seq<EntryView>, e: EntryView)
    requires
        distinct_entries(entries),
        entry_position(entries, e.kind, e.name) == entries.len(),
    ensures
        distinct_entries(entries.push(e)),
{
    let all = entries.push(e);
    lemma_position(entries, e.kind, e.name);
    assert forall|i: int, j: int| #![trigger all[i], all[j]]
        0 <= i < j < all.len() implies all[i].kind != all[j].kind || all[i].name
            != all[j].name by {
        assert(all[i] == entries[i]);
        if j < entries.len() {
            assert(all[j] == entries[j]);
        }
    }
}

proof fn lemma_distinct_rest(entries: Seq<EntryView>)
    requires
        entries.len() > 0,
        distinct_entries(entries),
        all_placed(entries),
    ensures
        distinct_entries(entries.drop_last()),
        all_placed(entries.drop_last()),
        places(entries.drop_last(), entries.last().kind, entries.last().name).len() == 0,
{
    let rest = entries.drop_last();
    let last = entries.last();
    assert forall|i: int, j: int| #![trigger rest[i], rest[j]]
        0 <= i < j < rest.len() implies rest[i].kind != rest[j].kind || rest[i].name
            != rest[j].name by {
        assert(rest[i] == entries[i]);
        assert(rest[j] == entries[j]);
    }
    assert forall|i: int| 0 <= i < rest.len() implies (#[trigger] rest[i]).locations.len() > 0 by {
        assert(rest[i] == entries[i]);
    }
    lemma_position(rest, last.kind, last.name);
    let at = entry_position(rest, last.kind, last.name);
    if at < rest.len() {
        assert(entries[at] == rest[at]);
        assert(entries[entries.len() - 1] == last);
    }
}

/// Taking a file out takes its locations out of every name.
proof fn lemma_places_without(
    entries: Seq<EntryView>,
    file: Seq<char>,
    kind: RefKind,
    name: Seq<char>,
)
    requires
        distinct_entries(entries),
        all_placed(entries),
    ensures
        places(without_file(entries, file), kind, name) == locations_elsewhere(
            places(entries, kind, name),
            file,
        ),
        distinct_entries(without_file(entries, file)),
        all_placed(without_file(entries, file)),
    decreases entries.len(),
{
    lemma_without_nonempty(entries, file);
    if entries.len() > 0 {
        let (rest, last) = (entries.drop_last(), entries.last());
        lemma_distinct_rest(entries);
        lemma_places_without(rest, file, kind, name);
        lemma_places_without(rest, file, last.kind, last.name);
        lemma_without_nonempty(rest, file);
        let before = without_file(rest, file);
        let kept = locations_elsewhere(last.locations, file);
        assert(rest.push(last) =~= entries);
        lemma_places_push(rest, last, kind, name);
        if kept.len() > 0 {
            let e = EntryView { locations: kept, ..last };
            lemma_places_push(before, e, kind, name);
            lemma_places_none(before, last.kind, last.name);
            lemma_distinct_push(before, e);
        }
        if last.kind == kind && last.name == name {
            assert(places(entries, kind, name) == last.locations);
        }
    }
}

proof fn lemma_same_positions(
    a: Seq<EntryView>,
    b: Seq<EntryView>,
    kind: RefKind,
    name: Seq<char>,
)
    requires
        a.len() == b.len(),
        forall|i: int|
            0 <= i < a.len() ==> (#[trigger] a[i]).kind == b[i].kind && a[i].name == b[i].name,
    ensures
        entry_position(a, kind, name) == entry_position(b, kind, name),
    decreases a.len(),
{
    if a.len() > 0 {
        assert forall|i: int| 0 <= i < a.len() - 1 implies (#[trigger] a.drop_last()[i]).kind
            == b.drop_last()[i].kind && a.drop_last()[i].name == b.drop_last()[i].name by {
            assert(a[i].kind == b[i].kind);
        }
        lemma_same_positions(a.drop_last(), b.drop_last(), kind, name);
        assert(a[a.len() - 1].kind == b[b.len() - 1].kind);
    }
}

/// A definition adds one location to its name.
proof fn lemma_places_with(
    entries: Seq<EntryView>,
    file: Seq<char>,
    def: DefinitionView,
    kind: RefKind,
    name: Seq<char>,
)
    requires
        distinct_entries(entries),
        all_placed(entries),
    ensures
        places(with_definition(entries, file, def), kind, name) == if def.kind == kind && lower(
            def.name,
        ) == name {
            places(entries, kind, name).push(LocationView { file, span: def.span })
        } else {
            places(entries, kind, name)
        },
        distinct_entries(with_definition(entries, file, def)),
        all_placed(with_definition(entries, file, def)),
{
    let own = lower(def.name);
    let at = entry_position(entries, def.kind, own);
    let after = with_definition(entries, file, def);
    let location = LocationView { file, span: def.span };
    lemma_position(entries, def.kind, own);
    lemma_position(entries, kind, name);
    if at < entries.len() {
        assert forall|i: int| 0 <= i < entries.len() implies (#[trigger] entries[i]).kind
            == after[i].kind && entries[i].name == after[i].name by {}
        lemma_same_positions(entries, after, kind, name);
        assert forall|i: int, j: int| #![trigger after[i], after[j]]
            0 <= i < j < after.len() implies after[i].kind != after[j].kind || after[i].name
                != after[j].name by {
            assert(entries[i].kind == after[i].kind);
            assert(entries[j].kind == after[j].kind);
        }
    } else {
        let e = EntryView {
            kind: def.kind,
            name: own,
            display: def.name,
            locations: seq![location],
        };
        lemma_places_push(entries, e, kind, name);
        lemma_places_none(entries, kind, name);
        lemma_distinct_push(entries, e);
        if def.kind == kind && own == name {
            assert(places(entries, kind, name).push(location) =~= seq![location]);
        }
    }
}

proof fn lemma_places_with_all(
    entries: Seq<EntryView>,
    file: Seq<char>,
    defs: Seq<DefinitionView>,
    kind: RefKind,
    name: Seq<char>,
)
    requires
        distinct_entries(entries),
        all_placed(entries),
    ensures
        places(with_definitions(entries, file, defs), kind, name) == places(entries, kind, name)
            + new_locations(defs, file, kind, name),
        distinct_entries(with_definitions(entries, file, defs)),
        all_placed(with_definitions(entries, file, defs)),
    decreases defs.len(),
{
    let old_places = places(entries, kind, name);
    if defs.len() == 0 {
        assert(old_places + Seq::<LocationView>::empty() =~= old_places);
    } else {
        let rest = defs.drop_last();
        lemma_places_with_all(entries, file, rest, kind, name);
        let before = with_definitions(entries, file, rest);
        lemma_places_with(before, file, defs.last(), kind, name);
        let location = LocationView { file, span: defs.last().span };
        assert((old_places + new_locations(rest, file, kind, name)).push(location) =~= old_places
            + new_locations(rest, file, kind, name).push(location));
    }
}

/// Law: after a file's definitions are replaced, a name is defined where it was
/// defined in other files, and then where the file's new definitions are, in their
/// order. It counts as defined exactly when it is defined somewhere.
pub proof fn set_file_replaces_locations(
    index: IndexView,
    file: Seq<char>,
    defs: Seq<DefinitionView>,
    kind: RefKind,
    name: Seq<char>,
)
    requires
        consistent(index),
    ensures
        ({
            let after = index.set_file(file, defs);
            &&& after.locations_of(kind, name) == locations_elsewhere(
                index.locations_of(kind, name),
                file,
            ) + new_locations(defs, file, kind, lower(name))
            &&& after.defines(kind, name) <==> after.locations_of(kind, name).len() > 0
        }),
{
    let rest = without_file(index.entries, file);
    let after = index.set_file(file, defs);
    lemma_places_without(index.entries, file, kind, lower(name));
    lemma_places_with_all(rest, file, defs, kind, lower(name));
    lemma_places_none(after.entries, kind, lower(name));
    lemma_position(after.entries, kind, lower(name));
}

/// Law: after a file is removed, a name is defined where it was defined in other
/// files.
pub proof fn remove_file_forgets_locations(
    index: IndexView,
    file: Seq<char>,
    kind: RefKind,
    name: Seq<char>,
)
    requires
        consistent(index),
    ensures
        ({
            let after = index.remove_file(file);
            &&& after.locations_of(kind, name) == locations_elsewhere(
                index.locations_of(kind, name),
                file,
            )
            &&& after.defines(kind, name) <==> after.locations_of(kind, name).len() > 0
        }),
{
    let after = index.remove_file(file);
    lemma_places_without(index.entries, file, kind, lower(name));
    lemma_places_none(after.entries, kind, lower(name));
    lemma_position(after.entries, kind, lower(name));
}

// ---------------------------------------------------------------------------
// Laws
// ---------------------------------------------------------------------------
/// Law: an empty index is consistent.
pub proof fn new_index_is_consistent()
    ensures
        consistent(IndexView { entries: Seq::empty(), files: Seq::empty(), generation: 0 }),
{
}

/// Law: replacing a file's definitions keeps the index consistent.
pub proof fn set_file_keeps_consistency(
    index: IndexView,
    file: Seq<char>,
    defs: Seq<DefinitionView>,
)
    requires
        consistent(index),
    ensures
        consistent(index.set_file(file, defs)),
{
    let after = index.set_file(file, defs);
    let rest = without_file(index.entries, file);
    lemma_places_without(index.entries, file, RefKind::Object, Seq::empty());
    lemma_places_with_all(rest, file, defs, RefKind::Object, Seq::empty());
    assert forall|kind: RefKind, name: Seq<char>, other: Seq<char>| #[trigger]
        placed(after.entries, kind, name, other) <==> recorded(
            after.files,
            kind,
            name,
            other,
        ) by {
        lemma_without(index.entries, file, kind, name, other);
        lemma_with_definitions(
            without_file(index.entries, file),
            file,
            defs,
            kind,
            name,
            other,
        );
        assert(placed(index.entries, kind, name, other) <==> recorded(
            index.files,
            kind,
            name,
            other,
        ));
        lemma_other_files(index.files, file, other);
        assert(after.files.drop_last() =~= other_files(index.files, file));
    }
}

/// Law: removing a file keeps the index consistent.
pub proof fn remove_file_keeps_consistency(index: IndexView, file: Seq<char>)
    requires
        consistent(index),
    ensures
        consistent(index.remove_file(file)),
{
    let after = index.remove_file(file);
    lemma_places_without(index.entries, file, RefKind::Object, Seq::empty());
    assert forall|kind: RefKind, name: Seq<char>, other: Seq<char>| #[trigger]
        placed(after.entries, kind, name, other) <==> recorded(
            after.files,
            kind,
            name,
            other,
        ) by {
        lemma_without(index.entries, file, kind, name, other);
        assert(placed(index.entries, kind, name, other) <==> recorded(
            index.files,
            kind,
            name,
            other,
        ));
        lemma_other_files(index.files, file, other);
    }
}

/// Law: after a file's definitions are replaced, the file contributes exactly
/// the given names, and every other file what it contributed before.
pub proof fn set_file_replaces_symbols(
    index: IndexView,
    file: Seq<char>,
    defs: Seq<DefinitionView>,
    kind: RefKind,
    name: Seq<char>,
    other: Seq<char>,
)
    ensures
        placed(index.set_file(file, defs).entries, kind, name, file) <==> defined_names(
            defs,
        ).contains((kind, name)),
        other != file ==> (placed(index.set_file(file, defs).entries, kind, name, other)
            <==> placed(index.entries, kind, name, other)),
{
    lemma_without(index.entries, file, kind, name, file);
    lemma_without(index.entries, file, kind, name, other);
    lemma_with_definitions(without_file(index.entries, file), file, defs, kind, name, file);
    lemma_with_definitions(without_file(index.entries, file), file, defs, kind, name, other);
}

/// Law: a removed file contributes nothing, and every other file what it
/// contributed before.
pub proof fn remove_file_forgets_symbols(
    index: IndexView,
    file: Seq<char>,
    kind: RefKind,
    name: Seq<char>,
    other: Seq<char>,
)
    ensures
        !placed(index.remove_file(file).entries, kind, name, file),
        other != file ==> (placed(index.remove_file(file).entries, kind, name, other) <==> placed(
            index.entries,
            kind,
            name,
            other,
        )),
{
    lemma_without(index.entries, file, kind, name, file);
    lemma_without(index.entries, file, kind, name, other);
}

/// A name is defined exactly when some file records it.
proof fn lemma_defined_by_files(index: IndexView, kind: RefKind, name: Seq<char>)
    requires
        consistent(index),
    ensures
        entry_position(index.entries, kind, name) < index.entries.len() <==> exists|
            file: Seq<char>,
        | #[trigger]
            recorded(index.files, kind, name, file),
{
    let at = entry_position(index.entries, kind, name);
    lemma_position(index.entries, kind, name);
    if at < index.entries.len() {
        let e = index.entries[at];
        assert(e.locations.len() > 0);
        let file = e.locations[0].file;
        assert(has_file(e.locations, file));
        assert(placed(index.entries, kind, name, file));
        assert(recorded(index.files, kind, name, file));
    } else {
        assert forall|file: Seq<char>| !(#[trigger] recorded(index.files, kind, name, file)) by {
            if recorded(index.files, kind, name, file) {
                assert(placed(index.entries, kind, name, file));
            }
        }
    }
}

/// Two consistent indexes with the same records define the same names.
proof fn lemma_same_records(a: IndexView, b: IndexView)
    requires
        consistent(a),
        consistent(b),
        forall|kind: RefKind, name: Seq<char>, file: Seq<char>| #[trigger]
            recorded(a.files, kind, name, file) <==> recorded(b.files, kind, name, file),
    ensures
        name_set(a) == name_set(b),
{
    assert forall|p: (RefKind, Seq<char>)| name_set(a).contains(p) == name_set(b).contains(p) by {
        lemma_defined_by_files(a, p.0, p.1);
        lemma_defined_by_files(b, p.0, p.1);
        if exists|file: Seq<char>| #[trigger] recorded(a.files, p.0, p.1, file) {
            let file = choose|file: Seq<char>| #[trigger] recorded(a.files, p.0, p.1, file);
            assert(recorded(b.files, p.0, p.1, file));
        }
        if exists|file: Seq<char>| #[trigger] recorded(b.files, p.0, p.1, file) {
            let file = choose|file: Seq<char>| #[trigger] recorded(b.files, p.0, p.1, file);
            assert(recorded(a.files, p.0, p.1, file));
        }
    }
    assert(name_set(a) =~= name_set(b));
}

/// Law: as long as the generation stays, so does the set of defined names. So
/// what was computed for one generation stays valid for it.
pub proof fn set_file_generation_tracks_names(
    index: IndexView,
    file: Seq<char>,
    defs: Seq<DefinitionView>,
)
    requires
        consistent(index),
    ensures
        index.set_file(file, defs).generation == index.generation ==> name_set(
            index.set_file(file, defs),
        ) == name_set(index),
{
    let after = index.set_file(file, defs);
    set_file_keeps_consistency(index, file, defs);
    if after.generation == index.generation {
        assert forall|kind: RefKind, name: Seq<char>, other: Seq<char>| #[trigger]
            recorded(index.files, kind, name, other) <==> recorded(
                after.files,
                kind,
                name,
                other,
            ) by {
            lemma_other_files(index.files, file, other);
            assert(after.files.drop_last() =~= other_files(index.files, file));
            if other == file {
                assert(recorded_names(after.files, other) == Some(defined_names(defs)));
                match recorded_names(index.files, file) {
                    None => {
                        assert(defs.len() == 0);
                        assert(!defined_names(defs).contains((kind, name)));
                    },
                    Some(names) => {
                        assert(names.to_set().contains((kind, name)) == defined_names(
                            defs,
                        ).to_set().contains((kind, name)));
                    },
                }
            }
        }
        lemma_same_records(index, after);
    }
}

/// Law: removing a file leaves the generation alone only where the set of
/// defined names stays.
pub proof fn remove_file_generation_tracks_names(index: IndexView, file: Seq<char>)
    requires
        consistent(index),
    ensures
        index.remove_file(file).generation == index.generation ==> name_set(
            index.remove_file(file),
        ) == name_set(index),
{
    let after = index.remove_file(file);
    remove_file_keeps_consistency(index, file);
    if after.generation == index.generation {
        assert forall|kind: RefKind, name: Seq<char>, other: Seq<char>| #[trigger]
            recorded(index.files, kind, name, other) <==> recorded(
                after.files,
                kind,
                name,
                other,
            ) by {
            lemma_other_files(index.files, file, other);
        }
        lemma_same_records(index, after);
    }
}

/// The names that a file defines; none if it is not indexed.
pub open spec fn file_names(index: IndexView, file: Seq<char>) -> Set<(RefKind, Seq<char>)> {
    match recorded_names(index.files, file) {
        Some(names) => names.to_set(),
        None => Set::empty(),
    }
}

/// Law: re-indexing a file with the same names, in whatever order and wherever
/// they stand, keeps the generation.
pub proof fn same_names_keep_generation(
    index: IndexView,
    file: Seq<char>,
    defs: Seq<DefinitionView>,
)
    requires
        file_names(index, file) == defined_names(defs).to_set(),
    ensures
        index.set_file(file, defs).generation == index.generation,
{
    if recorded_names(index.files, file) is None && defs.len() > 0 {
        assert(defined_names(defs).to_set().contains(defined_names(defs)[0]));
    }
}

/// Law: replacing a file's definitions moves the generation by one or not at all,
/// and does move it where a name becomes defined or is not defined any more.
pub proof fn defined_names_move_generation(
    index: IndexView,
    file: Seq<char>,
    defs: Seq<DefinitionView>,
    kind: RefKind,
    name: Seq<char>,
)
    requires
        consistent(index),
    ensures
        ({
            let after = index.set_file(file, defs);
            &&& after.generation == index.generation || after.generation == index.generation + 1
            &&& after.defines(kind, name) != index.defines(kind, name) ==> after.generation
                == index.generation + 1
        }),
{
    let after = index.set_file(file, defs);
    set_file_generation_tracks_names(index, file, defs);
    if after.generation == index.generation {
        let key = (kind, lower(name));
        assert(name_set(after).contains(key) == name_set(index).contains(key));
    }
}

/// Law: lookup ignores ASCII case.
pub proof fn lookup_ignores_case(index: IndexView, kind: RefKind, a: Seq<char>, b: Seq<char>)
    requires
        lower(a) == lower(b),
    ensures
        index.defines(kind, a) == index.defines(kind, b),
        index.locations_of(kind, a) == index.locations_of(kind, b),
{
}

} // verus!
