//! Symbols across files: what the cursor names, where it is used, and renaming.

use vstd::prelude::*;
use vstd::string::*;

use crate::analyzer::Analyzer;
use crate::facts::sites_of;
use crate::index::{location_views, Location, LocationView, WorkspaceIndex};
use crate::kind::SyntaxKind;
use crate::lexer::{
    kind_of, lex, lex_after_word, lex_token_shape, lex_word_holds_words, TokenView,
};
use crate::nav::{
    definition_at, opt_reference, path_definition, path_reference, reference_at, ReferenceAt,
    ReferenceView,
};
use crate::parser::{child_views, Parse};
use crate::position::{path_of, Bias, PathView};
use crate::schema::{RefKind, Schema};
use crate::sorting::{
    indices, key_views, reordered, sort_indices, sorted_order, KeyView, SortKey,
};
use crate::text::{chars_of, same};

verus! {

/// The symbol that a path through the tree ends at: what it refers to, or else
/// what it defines.
pub open spec fn path_symbol(schema: Schema, path: PathView) -> Option<ReferenceView> {
    match path_reference(schema, path) {
        Some(reference) => Some(reference),
        None => path_definition(schema, path),
    }
}

/// The symbol under the cursor: a reference, or the name of a definition.
pub fn symbol_at(analyzer: &Analyzer, parse: &Parse, offset: u32) -> (out: Option<ReferenceAt>)
    ensures
        opt_reference(out) == path_symbol(
            analyzer.schema,
            path_of(
                child_views(parse.children@),
                parse.len as int,
                offset as int,
                Bias::Right,
            ),
        ),
{
    match reference_at(analyzer, parse, offset) {
        Some(reference) => Some(reference),
        None => definition_at(analyzer, parse, offset),
    }
}

/// Where a symbol is used, and where it is defined if `declarations` asks for it.
pub open spec fn raw_sites(
    sites: Seq<LocationView>,
    locations: Seq<LocationView>,
    declarations: bool,
) -> Seq<LocationView> {
    if declarations {
        sites + locations
    } else {
        sites
    }
}

pub open spec fn site_keys(sites: Seq<LocationView>) -> Seq<KeyView> {
    sites.map_values(
        |site: LocationView| KeyView { text: site.file, rank: site.span.start as u64 },
    )
}

/// Sites by file, then by where they start.
pub open spec fn sorted_sites(sites: Seq<LocationView>) -> Seq<LocationView> {
    reordered(sites, sorted_order(site_keys(sites)))
}

/// A list without repetitions of the item before.
pub open spec fn without_repeats(sites: Seq<LocationView>) -> Seq<LocationView>
    decreases sites.len(),
{
    if sites.len() == 0 {
        Seq::empty()
    } else {
        let rest = without_repeats(sites.drop_last());
        if rest.len() > 0 && rest.last() == sites.last() {
            rest
        } else {
            rest.push(sites.last())
        }
    }
}

fn copy_location(location: &Location) -> (out: Location)
    ensures
        out.view() == location.view(),
{
    Location { file: location.file.clone(), span: location.span }
}

fn same_location(a: &Location, b: &Location) -> (yes: bool)
    ensures
        yes == (a.view() == b.view()),
{
    a.span == b.span && same(&a.file, &b.file)
}

fn sort_sites(sites: &Vec<Location>) -> (out: Vec<Location>)
    ensures
        location_views(out@) == sorted_sites(location_views(sites@)),
{
    let ghost all = location_views(sites@);
    let mut keys: Vec<SortKey> = Vec::new();
    let mut i: usize = 0;
    while i < sites.len()
        invariant
            i <= sites.len(),
            all == location_views(sites@),
            keys.len() == i,
            forall|j: int|
                0 <= j < i ==> (#[trigger] keys[j])@ == (KeyView {
                    text: all[j].file,
                    rank: all[j].span.start as u64,
                }),
        decreases sites.len() - i,
    {
        assert(all[i as int] == sites@[i as int].view());
        keys.push(SortKey { text: sites[i].file.clone(), rank: sites[i].span.start as u64 });
        i += 1;
    }
    assert(key_views(keys@) =~= site_keys(all));
    let order = sort_indices(&keys);
    let mut out: Vec<Location> = Vec::new();
    let mut i: usize = 0;
    while i < order.len()
        invariant
            i <= order.len(),
            order.len() == sites.len(),
            all == location_views(sites@),
            forall|j: int| 0 <= j < order.len() ==> #[trigger] order[j] < sites.len(),
            out.len() == i,
            forall|j: int| 0 <= j < i ==> (#[trigger] out[j]).view() == all[order[j] as int],
        decreases order.len() - i,
    {
        assert(all[order[i as int] as int] == sites@[order[i as int] as int].view());
        out.push(copy_location(&sites[order[i]]));
        i += 1;
    }
    proof {
        let ints = indices(order@);
        assert forall|j: int| 0 <= j < out.len() implies #[trigger] location_views(out@)[j]
            == sorted_sites(all)[j] by {
            assert(ints[j] == order[j]);
        }
        assert(location_views(out@) =~= sorted_sites(all));
    }
    out
}

fn drop_repeats(sites: &Vec<Location>) -> (out: Vec<Location>)
    ensures
        location_views(out@) == without_repeats(location_views(sites@)),
{
    let ghost all = location_views(sites@);
    let mut out: Vec<Location> = Vec::new();
    let mut i: usize = 0;
    assert(all.take(0) =~= Seq::<LocationView>::empty());
    assert(location_views(out@) =~= Seq::<LocationView>::empty());
    while i < sites.len()
        invariant
            i <= sites.len(),
            all == location_views(sites@),
            location_views(out@) == without_repeats(all.take(i as int)),
        decreases sites.len() - i,
    {
        let ghost before = location_views(out@);
        proof {
            assert(all.take(i + 1).drop_last() =~= all.take(i as int));
            assert(all.take(i + 1).last() == sites@[i as int].view());
        }
        let repeated = if out.len() > 0 {
            assert(before.last() == out@[out@.len() - 1].view());
            same_location(&out[out.len() - 1], &sites[i])
        } else {
            false
        };
        if !repeated {
            out.push(copy_location(&sites[i]));
            assert(location_views(out@) =~= before.push(all[i as int]));
        }
        i += 1;
    }
    assert(all.take(i as int) =~= all);
    out
}

/// The sites of a symbol in all files, by file and position: where it is used,
/// and where it is defined if `declarations` asks for it.
pub fn symbol_sites(index: &WorkspaceIndex, kind: RefKind, name: &str, declarations: bool) -> (out:
    Vec<Location>)
    ensures
        location_views(out@) == without_repeats(
            sorted_sites(
                raw_sites(
                    sites_of(index.facts().references, kind, name@),
                    index.view().locations_of(kind, name@),
                    declarations,
                ),
            ),
        ),
{
    let mut sites = index.reference_sites(kind, name);
    let ghost used = location_views(sites@);
    if declarations {
        let locations = index.locations(kind, name);
        let ghost defined = location_views(locations@);
        let mut i: usize = 0;
        assert(used + defined.take(0) =~= used);
        while i < locations.len()
            invariant
                i <= locations.len(),
                defined == location_views(locations@),
                location_views(sites@) == used + defined.take(i as int),
            decreases locations.len() - i,
        {
            let ghost before = location_views(sites@);
            assert(defined[i as int] == locations@[i as int].view());
            sites.push(copy_location(&locations[i]));
            assert(location_views(sites@) =~= before.push(defined[i as int]));
            assert(defined.take(i + 1) =~= defined.take(i as int).push(defined[i as int]));
            assert(location_views(sites@) =~= used + defined.take(i + 1));
            i += 1;
        }
        assert(defined.take(i as int) =~= defined);
    }
    drop_repeats(&sort_sites(&sites))
}

// ---------------------------------------------------------------------------
// Renaming
// ---------------------------------------------------------------------------
/// Characters that end a name: blanks, line ends, `=`, `;` and quotes.
pub open spec fn ends_name(c: char) -> bool {
    c == ' ' || c == '\t' || c == '\r' || c == '\n' || c == '=' || c == ';' || c == '"'
}

/// Whether a text reads as one token, as a definition's name must.
pub open spec fn single_token(name: Seq<char>) -> bool {
    name.len() > 0 && forall|i: int| 0 <= i < name.len() ==> !ends_name(#[trigger] name[i])
}

/// Whether a definition can be given a name.
pub fn is_single_token(name: &str) -> (yes: bool)
    ensures
        yes == single_token(name@),
{
    let chars = chars_of(name);
    let mut i: usize = 0;
    while i < chars.len()
        invariant
            i <= chars.len(),
            chars@ == name@,
            forall|j: int| 0 <= j < i ==> !ends_name(#[trigger] name@[j]),
        decreases chars.len() - i,
    {
        let c = chars[i];
        if c == ' ' || c == '\t' || c == '\r' || c == '\n' || c == '=' || c == ';' || c == '"' {
            assert(ends_name(name@[i as int]));
            return false;
        }
        i += 1;
    }
    chars.len() > 0
}

// ---------------------------------------------------------------------------
// Laws
// ---------------------------------------------------------------------------
/// Law: the sites of a symbol come in order of file and position.
pub proof fn sites_are_sorted(sites: Seq<LocationView>, i: int, j: int)
    requires
        0 <= i < j < sites.len(),
    ensures
        ({
            let sorted = sorted_sites(sites);
            let a = KeyView { text: sorted[i].file, rank: sorted[i].span.start as u64 };
            let b = KeyView { text: sorted[j].file, rank: sorted[j].span.start as u64 };
            sorted.len() == sites.len() && !crate::sorting::key_before(b, a)
        }),
{
    let keys = site_keys(sites);
    crate::sorting::sorting_is_stable(keys);
    let order = sorted_order(keys);
    assert(0 <= order[i] < sites.len() && 0 <= order[j] < sites.len());
    assert(!crate::sorting::key_before(keys[order[j]], keys[order[i]]));
}

/// Law: no site directly follows itself.
pub proof fn sites_do_not_repeat(sites: Seq<LocationView>, i: int)
    requires
        0 <= i,
        i + 1 < without_repeats(sites).len(),
    ensures
        without_repeats(sites)[i] != without_repeats(sites)[i + 1],
    decreases sites.len(),
{
    let rest = without_repeats(sites.drop_last());
    if i + 1 < rest.len() {
        sites_do_not_repeat(sites.drop_last(), i);
    }
}

proof fn lemma_repeats_keep(sites: Seq<LocationView>, site: LocationView)
    ensures
        without_repeats(sites).contains(site) <==> sites.contains(site),
    decreases sites.len(),
{
    if sites.len() > 0 {
        let rest = without_repeats(sites.drop_last());
        let all = without_repeats(sites);
        lemma_repeats_keep(sites.drop_last(), site);
        if sites.contains(site) {
            let i = choose|i: int| 0 <= i < sites.len() && sites[i] == site;
            if i < sites.len() - 1 {
                assert(sites.drop_last()[i] == site);
                let j = choose|j: int| 0 <= j < rest.len() && rest[j] == site;
                assert(all[j] == site);
            } else {
                assert(all[all.len() - 1] == site);
            }
        }
        if all.contains(site) {
            let j = choose|j: int| 0 <= j < all.len() && all[j] == site;
            if j < rest.len() {
                assert(rest[j] == site);
                let i = choose|i: int|
                    0 <= i < sites.drop_last().len() && sites.drop_last()[i] == site;
                assert(sites[i] == site);
            } else {
                assert(sites[sites.len() - 1] == site);
            }
        }
    }
}

/// Law: sorting the places of a symbol and dropping repetitions loses none and
/// adds none, so that a rename reaches every use and every definition.
pub proof fn sites_cover_every_place(sites: Seq<LocationView>, site: LocationView)
    ensures
        without_repeats(sorted_sites(sites)).contains(site) <==> sites.contains(site),
{
    let keys = site_keys(sites);
    let order = sorted_order(keys);
    let sorted = sorted_sites(sites);
    crate::sorting::sorting_is_stable(keys);
    lemma_repeats_keep(sorted, site);
    if sites.contains(site) {
        let k = choose|k: int| 0 <= k < sites.len() && sites[k] == site;
        crate::sorting::every_item_is_listed(order, sites.len(), k);
        let i = choose|i: int| 0 <= i < order.len() && order[i] == k;
        assert(sorted[i] == site);
    }
    if sorted.contains(site) {
        let i = choose|i: int| 0 <= i < sorted.len() && sorted[i] == site;
        assert(sites[order[i]] == site);
    }
}

/// Law: a definition can be given a name exactly when the name is read as one
/// word.
pub proof fn names_are_read_as_one_word(name: Seq<char>)
    ensures
        single_token(name) <==> lex(name) == seq![
            TokenView { kind: SyntaxKind::WORD, text: name },
        ],
{
    let word = seq![TokenView { kind: SyntaxKind::WORD, text: name }];
    let empty = Seq::<char>::empty();
    if single_token(name) {
        assert forall|k: int| 0 <= k < name.len() implies kind_of(#[trigger] name[k])
            == SyntaxKind::WORD by {
            assert(!ends_name(name[k]));
        }
        lex_after_word(name, empty);
        assert(name + empty =~= name);
        assert(lex(empty) =~= Seq::<TokenView>::empty());
        assert(lex(name) =~= word);
    }
    if lex(name) == word {
        lex_token_shape(name, 0);
        assert(lex(name)[0] == word[0]);
        lex_word_holds_words(name);
        assert forall|k: int| 0 <= k < name.len() implies !ends_name(#[trigger] name[k]) by {
            assert(kind_of(name[k]) == SyntaxKind::WORD);
        }
    }
}

} // verus!
